//! Resampling by weights that decrease with the distance from a pixel of a swath.

use crate::area::{AreaGrid, AreaGridView};
use crate::array::{
    array_ok, counts, lemma_plane_len, valid_value, AnyArrayView, AnyDataArray, ArrayView, DataGrid,
    ValidityMask,
};
use crate::assemble::{
    finish_plane_with, is_plane, keeps_swath_coordinates, lemma_swath_coordinates_kept, plane_with,
    PlaneNames,
};
use crate::dataset::{grid_of, is_on_area, lemma_resampled, resampled, Dataset, DatasetView};
use crate::error::{fails_with, is_invalid, ErrorView, Result, RustySatError};
use crate::nd_utils::lemma_pixel_inside;
use crate::nearest::{
    by_lonlat, grid_shape, lemma_by_lonlat, lonlat_error, plane_size, position_known,
    require_lonlat, shape_error, shape_text,
};
use crate::number::{F64, NAN_BITS_64};
use crate::rounding::{
    first_along, first_place, is_reached, last_along, last_place, lemma_places_between, reaches,
};
use crate::selection::{lemma_selects_next, selects};
use crate::swath::{SwathDefinition, SwathView};
use vstd::prelude::*;

verus! {

/// The bits of one hundredth.
const HUNDREDTH: u64 = 0x3f84_7ae1_47ae_147b;

/// The bits of one.
const ONE: u64 = 0x3ff0_0000_0000_0000;

/// Whether a number is finite and positive.
pub open spec fn positive(v: F64) -> bool {
    v.finite() && !v.at_most(F64 { bits: 0 })
}

/// Options as a mathematical value.
pub struct EwaView {
    pub radius: F64,
    pub weight_min: F64,
    pub weight_sum_min: F64,
    pub fill_value: F64,
    pub mask_missing: bool,
}

/// How far a pixel reaches, which weights count, and what becomes of a target pixel
/// that no pixel reaches.
#[derive(Clone, Copy, Debug, PartialEq)]
pub struct EwaOptions {
    radius_of_influence: F64,
    weight_min: F64,
    weight_sum_min: F64,
    fill_value: F64,
    mask_missing: bool,
}

impl View for EwaOptions {
    type V = EwaView;

    closed spec fn view(&self) -> EwaView {
        EwaView {
            radius: self.radius_of_influence,
            weight_min: self.weight_min,
            weight_sum_min: self.weight_sum_min,
            fill_value: self.fill_value,
            mask_missing: self.mask_missing,
        }
    }
}

/// What holds of all options: the radius is positive, the least weight is between zero
/// and one, and the least sum of weights is not negative.
pub open spec fn options_ok(o: EwaView) -> bool {
    &&& positive(o.radius)
    &&& positive(o.weight_min)
    &&& !F64 { bits: 0x3ff0_0000_0000_0000 }.at_most(o.weight_min)
    &&& o.weight_sum_min.finite()
    &&& !o.weight_sum_min.less(F64 { bits: 0 })
}

/// The options with a radius and nothing else chosen.
pub open spec fn default_options(radius: F64) -> EwaView {
    EwaView {
        radius,
        weight_min: F64 { bits: 0x3f84_7ae1_47ae_147b },
        weight_sum_min: F64 { bits: 0 },
        fill_value: F64 { bits: NAN_BITS_64 },
        mask_missing: false,
    }
}

impl EwaOptions {
    #[verifier::type_invariant]
    pub open spec fn inv(&self) -> bool {
        options_ok(self@)
    }

    pub fn new(radius_of_influence: F64) -> (r: Result<Self>)
        ensures
            !positive(radius_of_influence) ==> is_invalid(
                r,
                "EWA radius_of_influence must be finite and positive"@,
            ),
            positive(radius_of_influence) ==> r is Ok && r->Ok_0@ == default_options(
                radius_of_influence,
            ),
    {
        if !radius_of_influence.is_finite() || radius_of_influence.le(F64 { bits: 0 }) {
            return Err(
                RustySatError::invalid_input("EWA radius_of_influence must be finite and positive"),
            );
        }
        Ok(
            EwaOptions {
                radius_of_influence,
                weight_min: F64 { bits: HUNDREDTH },
                weight_sum_min: F64 { bits: 0 },
                fill_value: F64 { bits: NAN_BITS_64 },
                mask_missing: false,
            },
        )
    }

    pub fn with_weight_min(self, weight_min: F64) -> (r: Result<Self>)
        ensures
            ({
                let between = positive(weight_min) && !F64 { bits: 0x3ff0_0000_0000_0000 }.at_most(
                    weight_min,
                );
                &&& !between ==> is_invalid(
                    r,
                    "EWA weight_min must be finite and between 0 and 1"@,
                )
                &&& between ==> r is Ok && r->Ok_0@ == (EwaView { weight_min, ..self@ })
            }),
    {
        proof {
            use_type_invariant(&self);
        }
        if !weight_min.is_finite() || weight_min.le(F64 { bits: 0 }) || (F64 { bits: ONE }).le(
            weight_min,
        ) {
            return Err(
                RustySatError::invalid_input("EWA weight_min must be finite and between 0 and 1"),
            );
        }
        Ok(EwaOptions { weight_min, ..self })
    }

    pub fn with_weight_sum_min(self, weight_sum_min: F64) -> (r: Result<Self>)
        ensures
            ({
                let allowed = weight_sum_min.finite() && !weight_sum_min.less(F64 { bits: 0 });
                &&& !allowed ==> is_invalid(
                    r,
                    "EWA weight_sum_min must be finite and non-negative"@,
                )
                &&& allowed ==> r is Ok && r->Ok_0@ == (EwaView { weight_sum_min, ..self@ })
            }),
    {
        proof {
            use_type_invariant(&self);
        }
        if !weight_sum_min.is_finite() || weight_sum_min.lt(F64 { bits: 0 }) {
            return Err(
                RustySatError::invalid_input("EWA weight_sum_min must be finite and non-negative"),
            );
        }
        Ok(EwaOptions { weight_sum_min, ..self })
    }

    pub fn with_fill_value(self, fill_value: F64) -> (r: Self)
        ensures
            r@ == (EwaView { fill_value, ..self@ }),
    {
        proof {
            use_type_invariant(&self);
        }
        EwaOptions { fill_value, ..self }
    }

    pub fn with_masked_missing(self, mask_missing: bool) -> (r: Self)
        ensures
            r@ == (EwaView { mask_missing, ..self@ }),
    {
        proof {
            use_type_invariant(&self);
        }
        EwaOptions { mask_missing, ..self }
    }

    pub fn radius_of_influence(&self) -> (r: F64)
        ensures
            r == self@.radius,
    {
        self.radius_of_influence
    }

    pub fn weight_min(&self) -> (r: F64)
        ensures
            r == self@.weight_min,
    {
        self.weight_min
    }

    pub fn weight_sum_min(&self) -> (r: F64)
        ensures
            r == self@.weight_sum_min,
    {
        self.weight_sum_min
    }

    pub fn fill_value(&self) -> (r: F64)
        ensures
            r == self@.fill_value,
    {
        self.fill_value
    }

    pub fn mask_missing(&self) -> (r: bool)
        ensures
            r == self@.mask_missing,
    {
        self.mask_missing
    }
}

/// The rows and the columns that a pixel may reach, first and last.
#[derive(Clone, Copy, Debug, PartialEq, Eq)]
pub struct Footprint {
    pub y_start: usize,
    pub x_start: usize,
    pub y_end: usize,
    pub x_end: usize,
}

/// The centre of a pixel among the columns and the rows of the target, and the bounds of
/// what it reaches among them.
#[derive(Clone, Copy, Debug, PartialEq)]
pub struct Reach {
    pub x: F64,
    pub y: F64,
    pub x_low: F64,
    pub x_high: F64,
    pub y_low: F64,
    pub y_high: F64,
}

/// The rows and the columns of a target that lie within the bounds of a pixel, where
/// there are any.
pub open spec fn footprint_in(r: Reach, shape: (usize, usize)) -> Option<Footprint> {
    if !r.x.finite() || !r.y.finite() {
        None
    } else {
        match (first_place(r.y_low, shape.0), first_place(r.x_low, shape.1)) {
            (Some(y_start), Some(x_start)) => {
                let y_end = last_place(r.y_high, shape.0);
                let x_end = last_place(r.x_high, shape.1);
                if x_start > x_end || y_start > y_end {
                    None
                } else {
                    Some(Footprint { y_start, x_start, y_end, x_end })
                }
            },
            _ => None,
        }
    }
}

/// The rows and the columns of a target within the bounds of a pixel.
pub fn footprint_within(r: Reach, height: usize, width: usize) -> (out: Option<Footprint>)
    ensures
        out == footprint_in(r, (height, width)),
        out is Some ==> out->Some_0.y_end < height && out->Some_0.x_end < width,
{
    if !r.x.is_finite() || !r.y.is_finite() {
        return None;
    }
    let y_start: usize = match first_along(r.y_low, height) {
        Some(y) => y,
        None => {
            return None;
        },
    };
    let x_start: usize = match first_along(r.x_low, width) {
        Some(x) => x,
        None => {
            return None;
        },
    };
    let y_end: usize = last_along(r.y_high, height);
    let x_end: usize = last_along(r.x_high, width);
    if x_start > x_end || y_start > y_end {
        return None;
    }
    Some(Footprint { y_start, x_start, y_end, x_end })
}

/// Whether a target pixel is in a footprint.
pub open spec fn covers(f: Footprint, y: int, x: int) -> bool {
    f.y_start <= y <= f.y_end && f.x_start <= x <= f.x_end
}

/// Whether the bounds of what a position reaches depend on nothing else.
pub open spec fn bounds_ok<P: Fn(F64, F64) -> Reach>(bounds: P) -> bool {
    &&& forall|a: F64, b: F64| #[trigger] bounds.requires((a, b))
    &&& forall|a: F64, b: F64, p: Reach, q: Reach|
        bounds.ensures((a, b), p) && bounds.ensures((a, b), q) ==> p == q
}

/// Whether the squared distance of a position from a target pixel depends on nothing
/// else.
pub open spec fn gaps_ok<D: Fn(F64, F64, usize, usize) -> F64>(gap: D) -> bool {
    &&& forall|a: F64, b: F64, y: usize, x: usize| #[trigger] gap.requires((a, b, y, x))
    &&& forall|a: F64, b: F64, y: usize, x: usize, p: F64, q: F64|
        gap.ensures((a, b, y, x), p) && gap.ensures((a, b, y, x), q) ==> p == q
}

/// Whether the weight at a squared distance depends on nothing else.
pub open spec fn weights_ok<W: Fn(F64) -> F64>(weight: W) -> bool {
    &&& forall|a: F64| #[trigger] weight.requires((a,))
    &&& forall|a: F64, p: F64, q: F64| weight.ensures((a,), p) && weight.ensures((a,), q) ==> p == q
}

/// The target pixels that a position may reach.
pub open spec fn footprint_of<P: Fn(F64, F64) -> Reach>(
    bounds: P,
    lon: F64,
    lat: F64,
    shape: (usize, usize),
) -> Option<Footprint> {
    footprint_in(choose|p: Reach| bounds.ensures((lon, lat), p), shape)
}

pub open spec fn gap_of<D: Fn(F64, F64, usize, usize) -> F64>(
    gap: D,
    lon: F64,
    lat: F64,
    y: usize,
    x: usize,
) -> F64 {
    choose|d: F64| gap.ensures((lon, lat, y, x), d)
}

pub open spec fn weight_of<W: Fn(F64) -> F64>(weight: W, gap: F64) -> F64 {
    choose|w: F64| weight.ensures((gap,), w)
}

/// Whether a pixel of a swath counts: its value and its position are known.
pub open spec fn sample_counts(a: ArrayView<F64>, s: SwathView, i: int) -> bool {
    counts(a.values, a.mask, i) && position_known(s.lons->Some_0, s.lats->Some_0, i)
}

/// The weight of a position at a target pixel, where it reaches that far: the pixel is
/// in its footprint, not beyond the limit, and the weight is not too small.
pub open spec fn weight_at<
    P: Fn(F64, F64) -> Reach,
    D: Fn(F64, F64, usize, usize) -> F64,
    W: Fn(F64) -> F64,
>(
    lon: F64,
    lat: F64,
    y: int,
    x: int,
    shape: (usize, usize),
    limit: F64,
    weight_min: F64,
    bounds: P,
    gap: D,
    weight: W,
) -> Option<F64> {
    match footprint_of(bounds, lon, lat, shape) {
        Some(f) => {
            let d = gap_of(gap, lon, lat, y as usize, x as usize);
            let w = weight_of(weight, d);
            if covers(f, y, x) && !limit.less(d) && !w.less(weight_min) {
                Some(w)
            } else {
                None
            }
        },
        None => None,
    }
}

/// A list of values and weights with one more value, where it has a weight.
pub open spec fn with_weight(list: Seq<(F64, F64)>, value: F64, w: Option<F64>) -> Seq<(F64, F64)> {
    match w {
        Some(w) => list.push((value, w)),
        None => list,
    }
}

/// The values and the weights of the first `n` pixels of a swath at a target pixel.
pub open spec fn reached<
    P: Fn(F64, F64) -> Reach,
    D: Fn(F64, F64, usize, usize) -> F64,
    W: Fn(F64) -> F64,
>(
    a: ArrayView<F64>,
    s: SwathView,
    n: int,
    y: int,
    x: int,
    shape: (usize, usize),
    limit: F64,
    weight_min: F64,
    bounds: P,
    gap: D,
    weight: W,
) -> Seq<(F64, F64)>
    decreases n,
{
    if n <= 0 {
        Seq::empty()
    } else {
        let before = reached(a, s, n - 1, y, x, shape, limit, weight_min, bounds, gap, weight);
        if sample_counts(a, s, n - 1) {
            with_weight(
                before,
                a.values[n - 1],
                weight_at(
                    s.lons->Some_0[n - 1],
                    s.lats->Some_0[n - 1],
                    y,
                    x,
                    shape,
                    limit,
                    weight_min,
                    bounds,
                    gap,
                    weight,
                ),
            )
        } else {
            before
        }
    }
}

/// Whether `average` makes a mean and a sum of weights of a list of values and weights.
pub open spec fn averages<A: Fn(Vec<(F64, F64)>) -> (F64, F64)>(
    average: A,
    list: Seq<(F64, F64)>,
    mean: F64,
    sum: F64,
) -> bool {
    exists|v: Vec<(F64, F64)>| v@ == list && #[trigger] average.ensures((v,), (mean, sum))
}

/// Whether a target pixel has the mean of what reaches it, or no value: `sample` is
/// there where the weights add up to more than the least sum.
pub open spec fn is_ewa_sample<A: Fn(Vec<(F64, F64)>) -> (F64, F64)>(
    list: Seq<(F64, F64)>,
    weight_sum_min: F64,
    average: A,
    sample: Option<F64>,
) -> bool {
    exists|mean: F64, sum: F64| #[trigger]
        averages(average, list, mean, sum) && sample == if weight_sum_min.less(sum) {
            Some(mean)
        } else {
            None
        }
}

/// The list of the values and weights at target pixel `t`.
pub open spec fn reached_at<
    P: Fn(F64, F64) -> Reach,
    D: Fn(F64, F64, usize, usize) -> F64,
    W: Fn(F64) -> F64,
>(
    a: ArrayView<F64>,
    s: SwathView,
    n: int,
    g: AreaGridView,
    t: int,
    limit: F64,
    weight_min: F64,
    bounds: P,
    gap: D,
    weight: W,
) -> Seq<(F64, F64)> {
    reached(
        a,
        s,
        n,
        t / (g.area.width as int),
        t % (g.area.width as int),
        (g.area.height, g.area.width),
        limit,
        weight_min,
        bounds,
        gap,
        weight,
    )
}

/// Whether `samples` are the means at the target pixels.
pub open spec fn are_ewa_samples<
    P: Fn(F64, F64) -> Reach,
    D: Fn(F64, F64, usize, usize) -> F64,
    W: Fn(F64) -> F64,
    A: Fn(Vec<(F64, F64)>) -> (F64, F64),
>(
    a: ArrayView<F64>,
    s: SwathView,
    g: AreaGridView,
    limit: F64,
    o: EwaView,
    bounds: P,
    gap: D,
    weight: W,
    average: A,
    samples: Seq<Option<F64>>,
) -> bool {
    &&& samples.len() == g.area.height * g.area.width
    &&& forall|t: int|
        0 <= t < samples.len() ==> is_ewa_sample(
            reached_at(
                a,
                s,
                s.height * s.width,
                g,
                t,
                limit,
                o.weight_min,
                bounds,
                gap,
                weight,
            ),
            o.weight_sum_min,
            average,
            #[trigger] samples[t],
        )
}

/// The error with which a plane or a target is refused, if it is.
pub open spec fn ewa_error(
    a: ArrayView<F64>,
    source: SwathView,
    g: AreaGridView,
) -> Option<ErrorView> {
    let target = lonlat_error(
        g.area.projection,
        "EWA foundation requires lon/lat destination projection metadata"@,
        "EWA foundation only supports lon/lat destination areas"@,
    );
    if plane_size(a) != (source.height, source.width) {
        Some(
            ErrorView::InvalidInput(
                shape_text(
                    "dataset grid shape "@,
                    plane_size(a),
                    " does not match swath shape "@,
                    (source.height, source.width),
                ),
            ),
        )
    } else if target is Some {
        target
    } else if source.lons is None {
        Some(ErrorView::InvalidInput("EWA resampling requires source lons"@))
    } else {
        None
    }
}

/// The plane of these samples.
pub open spec fn ewa_plane(
    a: ArrayView<F64>,
    g: AreaGridView,
    samples: Seq<Option<F64>>,
    o: EwaView,
) -> ArrayView<F64> {
    plane_with(
        PlaneNames::Swath,
        Some(a),
        g,
        crate::bilinear::sample_values(samples, o.fill_value),
        if o.mask_missing {
            Some(Seq::new(samples.len(), |t: int| samples[t] is None))
        } else {
            None
        },
    )
}

/// Whether `r` is the plane of the means of what reaches each target pixel, or the first
/// obstacle.
pub open spec fn ewa_outcome<
    S: Fn(F64) -> F64,
    P: Fn(F64, F64) -> Reach,
    D: Fn(F64, F64, usize, usize) -> F64,
    W: Fn(F64) -> F64,
    A: Fn(Vec<(F64, F64)>) -> (F64, F64),
>(
    r: Result<DataGrid>,
    a: ArrayView<F64>,
    source: SwathView,
    g: AreaGridView,
    o: EwaView,
    square: S,
    bounds: P,
    gap: D,
    weight: W,
    average: A,
) -> bool {
    match ewa_error(a, source, g) {
        Some(e) => fails_with(r, e),
        None => exists|limit: F64, samples: Seq<Option<F64>>|
            #![trigger
                square.ensures((o.radius,), limit),
                are_ewa_samples(a, source, g, limit, o, bounds, gap, weight, average, samples)]
            square.ensures((o.radius,), limit) && are_ewa_samples(
                a,
                source,
                g,
                limit,
                o,
                bounds,
                gap,
                weight,
                average,
                samples,
            ) && r is Ok && r->Ok_0@ == ewa_plane(a, g, samples, o),
    }
}

proof fn lemma_at(y: int, x: int, width: int)
    requires
        0 <= x < width,
        0 <= y,
    ensures
        (y * width + x) / width == y,
        (y * width + x) % width == x,
        y * width >= 0,
{
    vstd::arithmetic::div_mod::lemma_fundamental_div_mod_converse(y * width + x, width, y, x);
    assert(y * width >= 0) by (nonlinear_arith)
        requires
            0 <= y,
            0 <= width,
    ;
}

/// Adds what a position gives to the target pixels of a row.
fn add_to_row<
    P: Fn(F64, F64) -> Reach,
    D: Fn(F64, F64, usize, usize) -> F64,
    W: Fn(F64) -> F64,
>(
    lists: &mut Vec<Vec<(F64, F64)>>,
    y: usize,
    height: usize,
    width: usize,
    f: Footprint,
    lon: F64,
    lat: F64,
    value: F64,
    limit: F64,
    weight_min: F64,
    bounds: &P,
    gap: &D,
    weight: &W,
)
    requires
        old(lists)@.len() == height * width,
        f.y_start <= y <= f.y_end,
        y < height,
        footprint_of(*bounds, lon, lat, (height, width)) == Some(f),
        gaps_ok(*gap),
        weights_ok(*weight),
    ensures
        final(lists)@.len() == height * width,
        forall|t: int|
            0 <= t < height * width ==> (#[trigger] final(lists)@[t])@ == if t / (width as int)
                == y {
                with_weight(
                    old(lists)@[t]@,
                    value,
                    weight_at(
                        lon,
                        lat,
                        y as int,
                        t % (width as int),
                        (height, width),
                        limit,
                        weight_min,
                        *bounds,
                        *gap,
                        *weight,
                    ),
                )
            } else {
                old(lists)@[t]@
            },
{
    let ghost start = lists@;
    let _len: usize = lists.len();
    let mut x: usize = f.x_start;
    while x < width && x <= f.x_end
        invariant
            f.x_start <= x,
            x <= f.x_end + 1 || x == f.x_start,
            x <= width || x == f.x_start,
            start.len() == height * width,
            height * width <= usize::MAX,
            lists@.len() == height * width,
            f.y_start <= y <= f.y_end,
            y < height,
            footprint_of(*bounds, lon, lat, (height, width)) == Some(f),
            gaps_ok(*gap),
            weights_ok(*weight),
            forall|t: int|
                0 <= t < height * width ==> (#[trigger] lists@[t])@ == if t / (width as int) == y
                    && t % (width as int) < x {
                    with_weight(
                        start[t]@,
                        value,
                        weight_at(
                            lon,
                            lat,
                            y as int,
                            t % (width as int),
                            (height, width),
                            limit,
                            weight_min,
                            *bounds,
                            *gap,
                            *weight,
                        ),
                    )
                } else {
                    start[t]@
                },
        decreases width - x,
    {
        proof {
            assert(0 <= y * width && y * width + x < height * width) by (nonlinear_arith)
                requires
                    y < height,
                    x < width,
            ;
            lemma_at(y as int, x as int, width as int);
        }
        let t: usize = y * width + x;
        let ghost before = lists@;
        let d = gap(lon, lat, y, x);
        proof {
            assert(gap.ensures((lon, lat, y, x), d));
            assert(gap_of(*gap, lon, lat, y, x) == d);
        }
        if !limit.lt(d) {
            let w = weight(d);
            proof {
                assert(weight.ensures((d,), w));
                assert(weight_of(*weight, d) == w);
            }
            if !w.lt(weight_min) {
                lists[t].push((value, w));
            }
        }
        proof {
            assert(before[t as int]@ == start[t as int]@);
            assert forall|u: int| 0 <= u < height * width implies (#[trigger] lists@[u])@ == if u / (
            width as int) == y && u % (width as int) < x + 1 {
                with_weight(
                    start[u]@,
                    value,
                    weight_at(
                        lon,
                        lat,
                        y as int,
                        u % (width as int),
                        (height, width),
                        limit,
                        weight_min,
                        *bounds,
                        *gap,
                        *weight,
                    ),
                )
            } else {
                start[u]@
            } by {
                vstd::arithmetic::div_mod::lemma_fundamental_div_mod(u, width as int);
                if u / (width as int) == y && u % (width as int) == x {
                    assert(u == t) by (nonlinear_arith)
                        requires
                            u == width * (u / (width as int)) + u % (width as int),
                            u / (width as int) == y,
                            u % (width as int) == x,
                            t == y * width + x,
                    ;
                }
                if u != t {
                    assert(lists@[u] == before[u]);
                }
            }
        }
        x = x + 1;
    }
    proof {
        assert forall|t: int| 0 <= t < height * width implies (#[trigger] lists@[t])@ == if t / (
        width as int) == y {
            with_weight(
                start[t]@,
                value,
                weight_at(
                    lon,
                    lat,
                    y as int,
                    t % (width as int),
                    (height, width),
                    limit,
                    weight_min,
                    *bounds,
                    *gap,
                    *weight,
                ),
            )
        } else {
            start[t]@
        } by {
            assert(0 <= t % (width as int) < width) by (nonlinear_arith)
                requires
                    0 <= t < height * width,
            ;
        }
    }
}

/// What a position gives to target pixel `t`.
pub open spec fn weight_in<
    P: Fn(F64, F64) -> Reach,
    D: Fn(F64, F64, usize, usize) -> F64,
    W: Fn(F64) -> F64,
>(
    lon: F64,
    lat: F64,
    t: int,
    shape: (usize, usize),
    limit: F64,
    weight_min: F64,
    bounds: P,
    gap: D,
    weight: W,
) -> Option<F64> {
    weight_at(
        lon,
        lat,
        t / (shape.1 as int),
        t % (shape.1 as int),
        shape,
        limit,
        weight_min,
        bounds,
        gap,
        weight,
    )
}

/// Adds what a position gives to the target pixels.
fn add_sample<
    P: Fn(F64, F64) -> Reach,
    D: Fn(F64, F64, usize, usize) -> F64,
    W: Fn(F64) -> F64,
>(
    lists: &mut Vec<Vec<(F64, F64)>>,
    height: usize,
    width: usize,
    lon: F64,
    lat: F64,
    value: F64,
    limit: F64,
    weight_min: F64,
    bounds: &P,
    gap: &D,
    weight: &W,
)
    requires
        old(lists)@.len() == height * width,
        bounds_ok(*bounds),
        gaps_ok(*gap),
        weights_ok(*weight),
    ensures
        final(lists)@.len() == height * width,
        forall|t: int|
            0 <= t < height * width ==> (#[trigger] final(lists)@[t])@ == with_weight(
                old(lists)@[t]@,
                value,
                weight_in(
                    lon,
                    lat,
                    t,
                    (height, width),
                    limit,
                    weight_min,
                    *bounds,
                    *gap,
                    *weight,
                ),
            ),
{
    let ghost start = lists@;
    let reach = bounds(lon, lat);
    proof {
        let found = choose|p: Reach| bounds.ensures((lon, lat), p);
        assert(bounds.ensures((lon, lat), reach));
        assert(found == reach);
    }
    let f = match footprint_within(reach, height, width) {
        Some(f) => f,
        None => {
            return ;
        },
    };
    let mut y: usize = f.y_start;
    while y < height && y <= f.y_end
        invariant
            f.y_start <= y,
            start.len() == height * width,
            lists@.len() == height * width,
            footprint_of(*bounds, lon, lat, (height, width)) == Some(f),
            gaps_ok(*gap),
            weights_ok(*weight),
            forall|t: int|
                0 <= t < height * width ==> (#[trigger] lists@[t])@ == if t / (width as int) < y {
                    with_weight(
                        start[t]@,
                        value,
                        weight_in(
                            lon,
                            lat,
                            t,
                            (height, width),
                            limit,
                            weight_min,
                            *bounds,
                            *gap,
                            *weight,
                        ),
                    )
                } else {
                    start[t]@
                },
        decreases height - y,
    {
        add_to_row(
            lists,
            y,
            height,
            width,
            f,
            lon,
            lat,
            value,
            limit,
            weight_min,
            bounds,
            gap,
            weight,
        );
        y = y + 1;
    }
    proof {
        assert forall|t: int| 0 <= t < height * width implies (#[trigger] lists@[t])@ == with_weight(
            start[t]@,
            value,
            weight_in(
                lon,
                lat,
                t,
                (height, width),
                limit,
                weight_min,
                *bounds,
                *gap,
                *weight,
            ),
        ) by {
            assert(t / (width as int) < height) by (nonlinear_arith)
                requires
                    0 <= t < height * width,
            ;
        }
    }
}

/// What reaches each target pixel.
fn gather_samples<
    P: Fn(F64, F64) -> Reach,
    D: Fn(F64, F64, usize, usize) -> F64,
    W: Fn(F64) -> F64,
>(
    source_grid: &DataGrid,
    source: &SwathDefinition,
    lons: &Vec<F64>,
    lats: &Vec<F64>,
    destination: &AreaGrid,
    limit: F64,
    weight_min: F64,
    bounds: &P,
    gap: &D,
    weight: &W,
) -> (r: Vec<Vec<(F64, F64)>>)
    requires
        source@.lons == Some(lons@),
        source@.lats == Some(lats@),
        lons@.len() == source@.height * source@.width,
        lats@.len() == lons@.len(),
        source_grid@.values.len() == lons@.len(),
        bounds_ok(*bounds),
        gaps_ok(*gap),
        weights_ok(*weight),
    ensures
        r@.len() == destination@.area.height * destination@.area.width,
        forall|t: int|
            0 <= t < r@.len() ==> (#[trigger] r@[t])@ == reached_at(
                source_grid@,
                source@,
                source@.height * source@.width,
                destination@,
                t,
                limit,
                weight_min,
                *bounds,
                *gap,
                *weight,
            ),
{
    proof {
        use_type_invariant(destination);
    }
    let (height, width) = destination.shape();
    let size: usize = height * width;
    let ghost g = destination@;
    let ghost a = source_grid@;
    let ghost s = source@;
    let mut lists: Vec<Vec<(F64, F64)>> = Vec::new();
    while lists.len() < size
        invariant
            lists@.len() <= size,
            forall|t: int|
                0 <= t < lists@.len() ==> (#[trigger] lists@[t])@ == Seq::<(F64, F64)>::empty(),
        decreases size - lists@.len(),
    {
        lists.push(Vec::new());
    }
    let count: usize = lons.len();
    let mut i: usize = 0;
    while i < count
        invariant
            i <= count,
            count == lons@.len(),
            lats@.len() == count,
            a.values.len() == count,
            a == source_grid@,
            s.lons == Some(lons@),
            s.lats == Some(lats@),
            height == g.area.height,
            width == g.area.width,
            lists@.len() == height * width,
            bounds_ok(*bounds),
            gaps_ok(*gap),
            weights_ok(*weight),
            forall|t: int|
                0 <= t < height * width ==> (#[trigger] lists@[t])@ == reached_at(
                    a,
                    s,
                    i as int,
                    g,
                    t,
                    limit,
                    weight_min,
                    *bounds,
                    *gap,
                    *weight,
                ),
        decreases count - i,
    {
        let ghost before = lists@;
        let lon = lons[i];
        let lat = lats[i];
        match valid_value(source_grid, i) {
            Some(value) => {
                if lon.is_finite() && lat.is_finite() {
                    add_sample(
                        &mut lists,
                        height,
                        width,
                        lon,
                        lat,
                        value,
                        limit,
                        weight_min,
                        bounds,
                        gap,
                        weight,
                    );
                }
            },
            None => {},
        }
        proof {
            assert forall|t: int| 0 <= t < height * width implies (#[trigger] lists@[t])@
                == reached_at(
                a,
                s,
                i + 1,
                g,
                t,
                limit,
                weight_min,
                *bounds,
                *gap,
                *weight,
            ) by {
                assert(before[t]@ == reached_at(
                    a,
                    s,
                    i as int,
                    g,
                    t,
                    limit,
                    weight_min,
                    *bounds,
                    *gap,
                    *weight,
                ));
            }
        }
        i = i + 1;
    }
    lists
}

/// The plane of the means of what reaches each target pixel. `square` gives the square
/// of the radius, `bounds` the bounds of what a position reaches, `gap` its squared
/// distance from the pixel in a row and a column, `weight` the weight at a squared
/// distance, and `average` the weighted mean of a list and the sum of its weights.
pub fn resample_swath_ewa<
    S: Fn(F64) -> F64,
    P: Fn(F64, F64) -> Reach,
    D: Fn(F64, F64, usize, usize) -> F64,
    W: Fn(F64) -> F64,
    A: Fn(Vec<(F64, F64)>) -> (F64, F64),
>(
    source_grid: &DataGrid,
    source: &SwathDefinition,
    destination: &AreaGrid,
    options: EwaOptions,
    square: &S,
    bounds: &P,
    gap: &D,
    weight: &W,
    average: &A,
) -> (r: Result<DataGrid>)
    requires
        is_plane(source_grid@),
        forall|v: F64| #[trigger] square.requires((v,)),
        bounds_ok(*bounds),
        gaps_ok(*gap),
        weights_ok(*weight),
        forall|v: Vec<(F64, F64)>| #[trigger] average.requires((v,)),
    ensures
        ewa_outcome(
            r,
            source_grid@,
            source@,
            destination@,
            options@,
            *square,
            *bounds,
            *gap,
            *weight,
            *average,
        ),
{
    proof {
        use_type_invariant(source_grid);
        use_type_invariant(source);
        use_type_invariant(destination);
    }
    let shape = grid_shape(source_grid);
    let expected = source.shape();
    if shape.0 != expected.0 || shape.1 != expected.1 {
        return Err(
            shape_error("dataset grid shape ", shape, " does not match swath shape ", expected),
        );
    }
    match require_lonlat(
        destination.area().projection(),
        "EWA foundation requires lon/lat destination projection metadata",
        "EWA foundation only supports lon/lat destination areas",
    ) {
        Ok(()) => {},
        Err(e) => {
            return Err(e);
        },
    }
    let lons = match source.lons() {
        Some(l) => l,
        None => {
            return Err(RustySatError::invalid_input("EWA resampling requires source lons"));
        },
    };
    let lats = match source.lats() {
        Some(l) => l,
        None => {
            return Err(RustySatError::invalid_input("EWA resampling requires source lats"));
        },
    };
    let limit = square(options.radius_of_influence());
    let lists = gather_samples(
        source_grid,
        source,
        lons,
        lats,
        destination,
        limit,
        options.weight_min(),
        bounds,
        gap,
        weight,
    );
    let ghost g = destination@;
    let ghost a = source_grid@;
    let ghost s = source@;
    let ghost o = options@;
    let ghost mut samples: Seq<Option<F64>> = Seq::empty();
    let size: usize = lists.len();
    let weight_sum_min = options.weight_sum_min();
    let fill_value = options.fill_value();
    let mut values: Vec<F64> = Vec::new();
    let mut flags: Vec<bool> = Vec::new();
    let mut t: usize = 0;
    while t < size
        invariant
            t <= size,
            size == lists@.len(),
            weight_sum_min == o.weight_sum_min,
            fill_value == o.fill_value,
            forall|v: Vec<(F64, F64)>| #[trigger] average.requires((v,)),
            samples.len() == t,
            forall|u: int|
                0 <= u < size ==> (#[trigger] lists@[u])@ == reached_at(
                    a,
                    s,
                    s.height * s.width,
                    g,
                    u,
                    limit,
                    o.weight_min,
                    *bounds,
                    *gap,
                    *weight,
                ),
            forall|u: int|
                0 <= u < t ==> is_ewa_sample(
                    reached_at(
                        a,
                        s,
                        s.height * s.width,
                        g,
                        u,
                        limit,
                        o.weight_min,
                        *bounds,
                        *gap,
                        *weight,
                    ),
                    weight_sum_min,
                    *average,
                    #[trigger] samples[u],
                ),
            values@ == crate::bilinear::sample_values(samples, fill_value),
            flags@ == Seq::new(samples.len(), |u: int| samples[u] is None),
        decreases size - t,
    {
        let list = crate::array::copy_values(&lists[t]);
        let ghost gathered = list;
        let (mean, sum) = average(list);
        let enough = weight_sum_min.lt(sum);
        proof {
            assert(average.ensures((gathered,), (mean, sum)));
            assert(averages(*average, lists@[t as int]@, mean, sum));
            let sample = if enough {
                Some(mean)
            } else {
                None
            };
            assert(is_ewa_sample(lists@[t as int]@, weight_sum_min, *average, sample));
            samples = samples.push(sample);
        }
        if enough {
            values.push(mean);
            flags.push(false);
        } else {
            values.push(fill_value);
            flags.push(true);
        }
        proof {
            assert(values@ =~= crate::bilinear::sample_values(samples, fill_value));
            assert(flags@ =~= Seq::new(samples.len(), |u: int| samples[u] is None));
        }
        t = t + 1;
    }
    proof {
        assert(square.ensures((o.radius,), limit));
        assert(are_ewa_samples(
            a,
            s,
            g,
            limit,
            o,
            *bounds,
            *gap,
            *weight,
            *average,
            samples,
        ));
    }
    let mask = if options.mask_missing() {
        Some(ValidityMask::from_masked_flags(flags))
    } else {
        None
    };
    finish_plane_with(PlaneNames::Swath, Some(source_grid), destination, values, mask)
}

/// As `resample_swath_ewa`, for a plane that is given away.
pub fn resample_swath_ewa_owned<
    S: Fn(F64) -> F64,
    P: Fn(F64, F64) -> Reach,
    D: Fn(F64, F64, usize, usize) -> F64,
    W: Fn(F64) -> F64,
    A: Fn(Vec<(F64, F64)>) -> (F64, F64),
>(
    source_grid: DataGrid,
    source: &SwathDefinition,
    destination: &AreaGrid,
    options: EwaOptions,
    square: &S,
    bounds: &P,
    gap: &D,
    weight: &W,
    average: &A,
) -> (r: Result<DataGrid>)
    requires
        is_plane(source_grid@),
        forall|v: F64| #[trigger] square.requires((v,)),
        bounds_ok(*bounds),
        gaps_ok(*gap),
        weights_ok(*weight),
        forall|v: Vec<(F64, F64)>| #[trigger] average.requires((v,)),
    ensures
        ewa_outcome(
            r,
            source_grid@,
            source@,
            destination@,
            options@,
            *square,
            *bounds,
            *gap,
            *weight,
            *average,
        ),
{
    resample_swath_ewa(
        &source_grid,
        source,
        destination,
        options,
        square,
        bounds,
        gap,
        weight,
        average,
    )
}

/// A resampler by weights, as a mathematical value.
pub struct EwaResamplerView {
    pub source: SwathView,
    pub options: EwaView,
}

/// A resampler by weights.
#[derive(Debug)]
pub struct EwaResampler {
    source: SwathDefinition,
    options: EwaOptions,
}

impl View for EwaResampler {
    type V = EwaResamplerView;

    closed spec fn view(&self) -> EwaResamplerView {
        EwaResamplerView { source: self.source@, options: self.options@ }
    }
}

impl Clone for EwaResampler {
    fn clone(&self) -> (r: Self)
        ensures
            r@ == self@,
    {
        EwaResampler {
            source: self.source.clone(),
            options: self.options,
        }
    }
}

/// Whether `r` is the data set of the means, or the first obstacle.
pub open spec fn ewa_dataset_outcome<
    S: Fn(F64) -> F64,
    P: Fn(F64, F64) -> Reach,
    D: Fn(F64, F64, usize, usize) -> F64,
    W: Fn(F64) -> F64,
    A: Fn(Vec<(F64, F64)>) -> (F64, F64),
>(
    r: Result<Dataset>,
    d: DatasetView,
    resampler: EwaResamplerView,
    g: AreaGridView,
    absent: Seq<char>,
    square: S,
    bounds: P,
    gap: D,
    weight: W,
    average: A,
) -> bool {
    match grid_of(d) {
        None => is_invalid(r, absent),
        Some(a) => exists|plane: Result<DataGrid>| #[trigger]
            ewa_outcome(
                plane,
                a,
                resampler.source,
                g,
                resampler.options,
                square,
                bounds,
                gap,
                weight,
                average,
            ) && match plane {
                Ok(p) => r is Ok && r->Ok_0@ == resampled(
                    d,
                    AnyArrayView::F64(p@),
                    g.area.id,
                    "ewa"@,
                ),
                Err(e) => fails_with(r, e@),
            },
    }
}

impl EwaResampler {
    pub fn new(source: SwathDefinition, options: EwaOptions) -> (r: Self)
        ensures
            r@ == (EwaResamplerView { source: source@, options: options@ }),
    {
        EwaResampler { source, options }
    }

    pub fn with_radius(source: SwathDefinition, radius_of_influence: F64) -> (r: Result<Self>)
        ensures
            !positive(radius_of_influence) ==> is_invalid(
                r,
                "EWA radius_of_influence must be finite and positive"@,
            ),
            positive(radius_of_influence) ==> r is Ok && r->Ok_0@ == (EwaResamplerView {
                source: source@,
                options: default_options(radius_of_influence),
            }),
    {
        match EwaOptions::new(radius_of_influence) {
            Ok(options) => Ok(Self::new(source, options)),
            Err(e) => Err(e),
        }
    }

    pub fn source(&self) -> (r: &SwathDefinition)
        ensures
            r@ == self@.source,
    {
        &self.source
    }

    pub fn options(&self) -> (r: EwaOptions)
        ensures
            r@ == self@.options,
    {
        self.options
    }

    pub fn name(&self) -> (r: &str)
        ensures
            r@ == "ewa"@,
    {
        "ewa"
    }

    /// A data set on an area.
    pub fn resample<
        S: Fn(F64) -> F64,
        P: Fn(F64, F64) -> Reach,
        D: Fn(F64, F64, usize, usize) -> F64,
        W: Fn(F64) -> F64,
        A: Fn(Vec<(F64, F64)>) -> (F64, F64),
    >(
        &self,
        dataset: &Dataset,
        destination: &AreaGrid,
        square: &S,
        bounds: &P,
        gap: &D,
        weight: &W,
        average: &A,
    ) -> (r: Result<Dataset>)
        requires
            grid_of(dataset@) is Some ==> is_plane(grid_of(dataset@)->Some_0),
            forall|v: F64| #[trigger] square.requires((v,)),
            bounds_ok(*bounds),
            gaps_ok(*gap),
            weights_ok(*weight),
            forall|v: Vec<(F64, F64)>| #[trigger] average.requires((v,)),
        ensures
            ewa_dataset_outcome(
                r,
                dataset@,
                self@,
                destination@,
                "EWA resampling requires f64 dataset grid values"@,
                *square,
                *bounds,
                *gap,
                *weight,
                *average,
            ),
    {
        self.resample_data(
            dataset,
            destination,
            "EWA resampling requires f64 dataset grid values",
            square,
            bounds,
            gap,
            weight,
            average,
        )
    }

    /// A data set that is given away on an area.
    pub fn resample_owned<
        S: Fn(F64) -> F64,
        P: Fn(F64, F64) -> Reach,
        D: Fn(F64, F64, usize, usize) -> F64,
        W: Fn(F64) -> F64,
        A: Fn(Vec<(F64, F64)>) -> (F64, F64),
    >(
        &self,
        dataset: Dataset,
        destination: &AreaGrid,
        square: &S,
        bounds: &P,
        gap: &D,
        weight: &W,
        average: &A,
    ) -> (r: Result<Dataset>)
        requires
            grid_of(dataset@) is Some ==> is_plane(grid_of(dataset@)->Some_0),
            forall|v: F64| #[trigger] square.requires((v,)),
            bounds_ok(*bounds),
            gaps_ok(*gap),
            weights_ok(*weight),
            forall|v: Vec<(F64, F64)>| #[trigger] average.requires((v,)),
        ensures
            ewa_dataset_outcome(
                r,
                dataset@,
                self@,
                destination@,
                "EWA resampling requires an f64 dataset grid"@,
                *square,
                *bounds,
                *gap,
                *weight,
                *average,
            ),
    {
        self.resample_data(
            &dataset,
            destination,
            "EWA resampling requires an f64 dataset grid",
            square,
            bounds,
            gap,
            weight,
            average,
        )
    }

    /// A data set on an area, with the text of the error where it has no grid.
    fn resample_data<
        S: Fn(F64) -> F64,
        P: Fn(F64, F64) -> Reach,
        D: Fn(F64, F64, usize, usize) -> F64,
        W: Fn(F64) -> F64,
        A: Fn(Vec<(F64, F64)>) -> (F64, F64),
    >(
        &self,
        dataset: &Dataset,
        destination: &AreaGrid,
        absent: &str,
        square: &S,
        bounds: &P,
        gap: &D,
        weight: &W,
        average: &A,
    ) -> (r: Result<Dataset>)
        requires
            grid_of(dataset@) is Some ==> is_plane(grid_of(dataset@)->Some_0),
            forall|v: F64| #[trigger] square.requires((v,)),
            bounds_ok(*bounds),
            gaps_ok(*gap),
            weights_ok(*weight),
            forall|v: Vec<(F64, F64)>| #[trigger] average.requires((v,)),
        ensures
            ewa_dataset_outcome(
                r,
                dataset@,
                self@,
                destination@,
                absent@,
                *square,
                *bounds,
                *gap,
                *weight,
                *average,
            ),
    {
        let source_grid = match dataset.data() {
            Some(g) => g,
            None => {
                return Err(RustySatError::invalid_input(absent));
            },
        };
        let outcome = resample_swath_ewa(
            source_grid,
            &self.source,
            destination,
            self.options,
            square,
            bounds,
            gap,
            weight,
            average,
        );
        assert(ewa_outcome(
            outcome,
            source_grid@,
            self@.source,
            destination@,
            self@.options,
            *square,
            *bounds,
            *gap,
            *weight,
            *average,
        ));
        match outcome {
            Ok(plane) => Ok(
                Dataset::resampled_from(
                    dataset,
                    AnyDataArray::F64(plane),
                    destination.area().id(),
                    "ewa",
                ),
            ),
            Err(e) => Err(e),
        }
    }
}

/// A footprint holds every pixel between the bounds of a position, and no pixel a whole place
/// outside them. A position with finite bounds that has none reaches no pixel.
pub proof fn lemma_footprint_between_bounds(r: Reach, shape: (usize, usize), y: int, x: int)
    requires
        r.x.finite() && r.y.finite(),
        r.y_low.finite() && r.y_high.finite() && r.x_low.finite() && r.x_high.finite(),
        0 <= y < shape.0,
        0 <= x < shape.1,
    ensures
        is_reached(r.y_low, y) && reaches(r.y_high, y) && is_reached(r.x_low, x) && reaches(
            r.x_high,
            x,
        ) ==> footprint_in(r, shape) is Some && covers(footprint_in(r, shape)->Some_0, y, x),
        footprint_in(r, shape) matches Some(f) ==> f.y_start <= f.y_end < shape.0 && f.x_start
            <= f.x_end < shape.1,
        footprint_in(r, shape) matches Some(f) && covers(f, y, x) ==> {
            &&& !reaches(r.y_low, y + 1)
            &&& !reaches(r.x_low, x + 1)
            &&& y > 0 ==> !is_reached(r.y_high, y - 1)
            &&& x > 0 ==> !is_reached(r.x_high, x - 1)
        },
{
    lemma_places_between(r.y_low, r.y_high, shape.0, y);
    lemma_places_between(r.x_low, r.x_high, shape.1, x);
}

/// What holds of the values and weights that reach the pixel in row `y` and column `x`: the
/// numbers `chosen` are those of the samples that count there, each with the weight at its
/// distance. A sample counts where it is not masked, its value and its position are finite,
/// the pixel lies between its bounds, its squared distance is not above the limit and its
/// weight not below the least one.
pub open spec fn weighs_fairly<
    P: Fn(F64, F64) -> Reach,
    D: Fn(F64, F64, usize, usize) -> F64,
    W: Fn(F64) -> F64,
>(
    list: Seq<(F64, F64)>,
    chosen: Seq<int>,
    a: ArrayView<F64>,
    lons: Seq<F64>,
    lats: Seq<F64>,
    y: usize,
    x: usize,
    limit: F64,
    least: F64,
    bounds: P,
    gap: D,
    weight: W,
) -> bool {
    &&& chosen.len() == list.len()
    &&& forall|j: int, k: int| 0 <= j < k < chosen.len() ==> chosen[j] < chosen[k]
    &&& forall|j: int|
        0 <= j < chosen.len() ==> {
            let i = #[trigger] chosen[j];
            &&& 0 <= i < a.values.len()
            &&& list[j].0 == a.values[i]
            &&& a.values[i].finite() && lons[i].finite() && lats[i].finite()
            &&& !(a.mask is Some && a.mask->Some_0[i])
        }
    &&& forall|j: int, d: F64, w: F64|
        0 <= j < chosen.len() && #[trigger] gap.ensures(
            (lons[chosen[j]], lats[chosen[j]], y, x),
            d,
        ) && #[trigger] weight.ensures((d,), w) ==> list[j].1 == w && !limit.less(d) && !w.less(
            least,
        )
    &&& forall|i: int, p: Reach, d: F64, w: F64|
        0 <= i < a.values.len() && a.values[i].finite() && lons[i].finite() && lats[i].finite()
            && !(a.mask is Some && a.mask->Some_0[i]) && #[trigger] bounds.ensures(
            (lons[i], lats[i]),
            p,
        ) && p.x.finite() && p.y.finite() && p.y_low.finite() && p.y_high.finite()
            && p.x_low.finite() && p.x_high.finite() && is_reached(p.y_low, y as int) && reaches(
            p.y_high,
            y as int,
        ) && is_reached(p.x_low, x as int) && reaches(p.x_high, x as int) && #[trigger] gap.ensures(
            (lons[i], lats[i], y, x),
            d,
        ) && !limit.less(d) && #[trigger] weight.ensures((d,), w) && !w.less(least)
            ==> chosen.contains(i)
}

proof fn lemma_reached_selects<
    P: Fn(F64, F64) -> Reach,
    D: Fn(F64, F64, usize, usize) -> F64,
    W: Fn(F64) -> F64,
>(
    a: ArrayView<F64>,
    s: SwathView,
    n: int,
    y: int,
    x: int,
    shape: (usize, usize),
    limit: F64,
    least: F64,
    bounds: P,
    gap: D,
    weight: W,
) -> (chosen: Seq<int>)
    requires
        n >= 0,
    ensures
        selects(
            reached(a, s, n, y, x, shape, limit, least, bounds, gap, weight),
            chosen,
            n,
            |i: int|
                sample_counts(a, s, i) && weight_at(
                    s.lons->Some_0[i],
                    s.lats->Some_0[i],
                    y,
                    x,
                    shape,
                    limit,
                    least,
                    bounds,
                    gap,
                    weight,
                ) is Some,
            |i: int|
                (
                    a.values[i],
                    weight_at(
                        s.lons->Some_0[i],
                        s.lats->Some_0[i],
                        y,
                        x,
                        shape,
                        limit,
                        least,
                        bounds,
                        gap,
                        weight,
                    )->Some_0,
                ),
        ),
        forall|i: int|
            0 <= i < n && #[trigger] sample_counts(a, s, i) && weight_at(
                s.lons->Some_0[i],
                s.lats->Some_0[i],
                y,
                x,
                shape,
                limit,
                least,
                bounds,
                gap,
                weight,
            ) is Some ==> chosen.contains(i),
    decreases n,
{
    let taken = |i: int|
        sample_counts(a, s, i) && weight_at(
            s.lons->Some_0[i],
            s.lats->Some_0[i],
            y,
            x,
            shape,
            limit,
            least,
            bounds,
            gap,
            weight,
        ) is Some;
    let value = |i: int|
        (
            a.values[i],
            weight_at(
                s.lons->Some_0[i],
                s.lats->Some_0[i],
                y,
                x,
                shape,
                limit,
                least,
                bounds,
                gap,
                weight,
            )->Some_0,
        );
    let chosen = if n == 0 {
        Seq::empty()
    } else {
        let before = lemma_reached_selects(
            a,
            s,
            n - 1,
            y,
            x,
            shape,
            limit,
            least,
            bounds,
            gap,
            weight,
        );
        let list = reached(a, s, n - 1, y, x, shape, limit, least, bounds, gap, weight);
        lemma_selects_next(list, before, n - 1, taken, value);
        if taken(n - 1) {
            before.push(n - 1)
        } else {
            before
        }
    };
    assert forall|i: int|
        0 <= i < n && #[trigger] sample_counts(a, s, i) && weight_at(
            s.lons->Some_0[i],
            s.lats->Some_0[i],
            y,
            x,
            shape,
            limit,
            least,
            bounds,
            gap,
            weight,
        ) is Some implies chosen.contains(i) by {
        assert(taken(i));
    }
    chosen
}

/// Spreading by weights: the pixel in row `y` and column `x` has the mean of the samples that
/// count there, where their weights add up to more than the least sum, and else the fill
/// value; it is masked where it has no mean and missing values are masked.
pub proof fn lemma_ewa_weighs_fairly<
    S: Fn(F64) -> F64,
    P: Fn(F64, F64) -> Reach,
    D: Fn(F64, F64, usize, usize) -> F64,
    W: Fn(F64) -> F64,
    A: Fn(Vec<(F64, F64)>) -> (F64, F64),
>(
    r: Result<DataGrid>,
    a: ArrayView<F64>,
    source: SwathView,
    g: AreaGridView,
    o: EwaView,
    square: S,
    bounds: P,
    gap: D,
    weight: W,
    average: A,
    y: usize,
    x: usize,
) -> (out: (F64, Vec<(F64, F64)>, Seq<int>, F64, F64))
    requires
        ewa_outcome(r, a, source, g, o, square, bounds, gap, weight, average),
        r is Ok,
        array_ok(a),
        is_plane(a),
        bounds_ok(bounds),
        gaps_ok(gap),
        weights_ok(weight),
        y < g.area.height,
        x < g.area.width,
    ensures
        ({
            let (limit, list, chosen, mean, sum) = out;
            let t = y * g.area.width + x;
            &&& square.ensures((o.radius,), limit)
            &&& weighs_fairly(
                list@,
                chosen,
                a,
                source.lons->Some_0,
                source.lats->Some_0,
                y,
                x,
                limit,
                o.weight_min,
                bounds,
                gap,
                weight,
            )
            &&& average.ensures((list,), (mean, sum))
            &&& r->Ok_0@.values.len() == g.area.height * g.area.width
            &&& r->Ok_0@.values[t] == if o.weight_sum_min.less(sum) {
                mean
            } else {
                o.fill_value
            }
            &&& o.mask_missing ==> r->Ok_0@.mask is Some && r->Ok_0@.mask->Some_0[t]
                == !o.weight_sum_min.less(sum)
            &&& !o.mask_missing ==> r->Ok_0@.mask is None
        }),
{
    let (limit, samples) = choose|limit: F64, samples: Seq<Option<F64>>|
        #![trigger
            square.ensures((o.radius,), limit),
            are_ewa_samples(a, source, g, limit, o, bounds, gap, weight, average, samples)]
        square.ensures((o.radius,), limit) && are_ewa_samples(
            a,
            source,
            g,
            limit,
            o,
            bounds,
            gap,
            weight,
            average,
            samples,
        ) && r is Ok && r->Ok_0@ == ewa_plane(a, g, samples, o);
    let t = y * g.area.width + x;
    lemma_pixel_inside(y as int, x as int, g.area.height as int, g.area.width as int);
    let shape = (g.area.height, g.area.width);
    let n = source.height * source.width;
    assert(n == a.values.len()) by {
        lemma_plane_len(a);
    }
    let list = reached_at(a, source, n, g, t, limit, o.weight_min, bounds, gap, weight);
    assert(is_ewa_sample(list, o.weight_sum_min, average, samples[t]));
    let (mean, sum) = choose|mean: F64, sum: F64| #[trigger]
        averages(average, list, mean, sum) && samples[t] == if o.weight_sum_min.less(sum) {
            Some(mean)
        } else {
            None
        };
    let v = choose|v: Vec<(F64, F64)>| v@ == list && #[trigger] average.ensures((v,), (mean, sum));
    let chosen = lemma_reached_selects(
        a,
        source,
        n,
        y as int,
        x as int,
        shape,
        limit,
        o.weight_min,
        bounds,
        gap,
        weight,
    );
    let lons = source.lons->Some_0;
    let lats = source.lats->Some_0;
    assert forall|i: int, p: Reach, d: F64, w: F64|
        0 <= i < a.values.len() && a.values[i].finite() && lons[i].finite() && lats[i].finite()
            && !(a.mask is Some && a.mask->Some_0[i]) && #[trigger] bounds.ensures(
            (lons[i], lats[i]),
            p,
        ) && p.x.finite() && p.y.finite() && p.y_low.finite() && p.y_high.finite()
            && p.x_low.finite() && p.x_high.finite() && is_reached(p.y_low, y as int) && reaches(
            p.y_high,
            y as int,
        ) && is_reached(p.x_low, x as int) && reaches(p.x_high, x as int) && #[trigger] gap.ensures(
            (lons[i], lats[i], y, x),
            d,
        ) && !limit.less(d) && #[trigger] weight.ensures((d,), w) && !w.less(o.weight_min)
        implies chosen.contains(i) by {
        lemma_footprint_between_bounds(p, shape, y as int, x as int);
        assert(sample_counts(a, source, i));
        assert(gap_of(gap, lons[i], lats[i], y, x) == d);
        assert(weight_of(weight, d) == w);
        assert(weight_at(
            lons[i],
            lats[i],
            y as int,
            x as int,
            shape,
            limit,
            o.weight_min,
            bounds,
            gap,
            weight,
        ) is Some);
    }
    (limit, v, chosen, mean, sum)
}

/// Resampling by ellipses is done exactly where the plane has the shape of the swath, the
/// target is one by longitude and latitude, and the swath has longitudes.
pub proof fn lemma_ewa_accepts<
    S: Fn(F64) -> F64,
    P: Fn(F64, F64) -> Reach,
    D: Fn(F64, F64, usize, usize) -> F64,
    W: Fn(F64) -> F64,
    A: Fn(Vec<(F64, F64)>) -> (F64, F64),
>(
    r: Result<DataGrid>,
    a: ArrayView<F64>,
    source: SwathView,
    g: AreaGridView,
    o: EwaView,
    square: S,
    bounds: P,
    gap: D,
    weight: W,
    average: A,
)
    requires
        ewa_outcome(r, a, source, g, o, square, bounds, gap, weight, average),
        array_ok(a),
        is_plane(a),
    ensures
        r is Ok <==> a.shape == seq![source.height, source.width] && by_lonlat(g.area.projection)
            && source.lons is Some,
{
    lemma_plane_len(a);
    lemma_by_lonlat(
        g.area.projection,
        "EWA foundation requires lon/lat destination projection metadata"@,
        "EWA foundation only supports lon/lat destination areas"@,
    );
    if plane_size(a) == (source.height, source.width) {
        assert(a.shape =~= seq![source.height, source.width]);
    }
}

/// Resampling a data set by ellipses: it is on the area of the target, and its plane is the
/// resampled plane of its grid.
pub proof fn lemma_ewa_dataset<
    S: Fn(F64) -> F64,
    P: Fn(F64, F64) -> Reach,
    D: Fn(F64, F64, usize, usize) -> F64,
    W: Fn(F64) -> F64,
    A: Fn(Vec<(F64, F64)>) -> (F64, F64),
>(
    r: Result<Dataset>,
    d: DatasetView,
    resampler: EwaResamplerView,
    g: AreaGridView,
    absent: Seq<char>,
    square: S,
    bounds: P,
    gap: D,
    weight: W,
    average: A,
) -> (plane: Result<DataGrid>)
    requires
        ewa_dataset_outcome(
            r,
            d,
            resampler,
            g,
            absent,
            square,
            bounds,
            gap,
            weight,
            average,
        ),
        r is Ok,
    ensures
        d.array is Some && d.array->Some_0 is F64,
        plane is Ok,
        ewa_outcome(
            plane,
            d.array->Some_0->F64_0,
            resampler.source,
            g,
            resampler.options,
            square,
            bounds,
            gap,
            weight,
            average,
        ),
        r->Ok_0@.array == Some(AnyArrayView::F64(plane->Ok_0@)),
        is_on_area(r->Ok_0@, d, g, "ewa"@),
{
    let a = grid_of(d)->Some_0;
    let plane = choose|plane: Result<DataGrid>| #[trigger]
        ewa_outcome(
            plane,
            a,
            resampler.source,
            g,
            resampler.options,
            square,
            bounds,
            gap,
            weight,
            average,
        ) && match plane {
            Ok(p) => r is Ok && r->Ok_0@ == resampled(
                d,
                AnyArrayView::F64(p@),
                g.area.id,
                "ewa"@,
            ),
            Err(e) => fails_with(r, e@),
        };
    lemma_resampled(d, AnyArrayView::F64(plane->Ok_0@), g, "ewa"@);
    plane
}

/// A plane by ellipses has the axes of the target and no positions.
pub proof fn lemma_ewa_coordinates<
    S: Fn(F64) -> F64,
    P: Fn(F64, F64) -> Reach,
    D: Fn(F64, F64, usize, usize) -> F64,
    W: Fn(F64) -> F64,
    A: Fn(Vec<(F64, F64)>) -> (F64, F64),
>(
    r: Result<DataGrid>,
    a: ArrayView<F64>,
    source: SwathView,
    g: AreaGridView,
    o: EwaView,
    square: S,
    bounds: P,
    gap: D,
    weight: W,
    average: A,
)
    requires
        ewa_outcome(r, a, source, g, o, square, bounds, gap, weight, average),
        r is Ok,
    ensures
        keeps_swath_coordinates(r->Ok_0@, a, g),
{
    lemma_swath_coordinates_kept(a, g, r->Ok_0@.values, r->Ok_0@.mask);
}

} // verus!
