//! Resampling between planes whose sizes are whole multiples of each other.

use crate::area::{AreaGrid, AreaGridView};
use crate::array::{
    any_array_ok, any_set, are_numbers, array_ok, copy_values, fits, has_value, lemma_plane_len,
    lemma_y_is_not_x, masked_in, size_along, AnyArrayView, AnyDataArray, ArrayView, CoordinateView, DataArray, DataGrid,
};
use crate::assemble::{
    add_plane_coords, add_preserved_coords, finish_array, has_plane, keeps_coordinate,
    kept_coordinates, kept_fit, lemma_kept_fits_resized, mask_of, plane_coordinates, PlaneNames,
};
use crate::error::{fails_with, is_invalid, ErrorView, Result, RustySatError};
use crate::linesample::{replaced_plane, x_axis_of, y_axis_of};
use crate::nd_utils::{
    checked_shape_size, first_zero, in_bounds, lemma_first_zero_of_no_zero, lemma_no_overflow,
    lemma_pixel_inside, lemma_ravel_bounded, lemma_ravel_unravel, lemma_unravel_ravel, linear_index, no_zero, ravel,
    row_major_strides, size_of_shape, stride, strides_of, strides_overflow, unravel, unravel_offset,
};
use crate::number::{F64, NAN_BITS_64};
use crate::selection::{lemma_selects_next, selects};
use crate::text::{copy_texts, lemma_position_in, position_in, texts};
use vstd::arithmetic::div_mod::lemma_fundamental_div_mod_converse;
use vstd::prelude::*;

verus! {

/// How the pixels of a source plane become those of a target plane.
#[derive(Clone, Copy, Debug, PartialEq, Eq, Structural)]
pub enum NativeScale {
    /// Both planes have the same size.
    Identity,
    /// Each source pixel becomes a block of target pixels.
    Repeat { y_factor: usize, x_factor: usize },
    /// A block of source pixels becomes one target pixel.
    Aggregate { y_factor: usize, x_factor: usize },
}

/// Which scale leads from one size to another, or the error where none does.
pub fn native_scale(source_shape: (usize, usize), destination_shape: (usize, usize)) -> (r: Result<
    NativeScale,
>)
    requires
        source_shape.0 > 0,
        source_shape.1 > 0,
        destination_shape.0 > 0,
        destination_shape.1 > 0,
    ensures
        scale_outcome(r, source_shape, destination_shape),
{
    let (src_h, src_w) = source_shape;
    let (dst_h, dst_w) = destination_shape;
    if src_h == dst_h && src_w == dst_w {
        return Ok(NativeScale::Identity);
    }
    if dst_h >= src_h && dst_w >= src_w {
        if dst_h % src_h != 0 || dst_w % src_w != 0 {
            return Err(
                RustySatError::unsupported("native expansion requires integer y/x repeat factors"),
            );
        }
        return Ok(NativeScale::Repeat { y_factor: dst_h / src_h, x_factor: dst_w / src_w });
    }
    if dst_h <= src_h && dst_w <= src_w {
        if src_h % dst_h != 0 || src_w % dst_w != 0 {
            return Err(
                RustySatError::unsupported(
                    "native reduction requires integer y/x aggregation factors",
                ),
            );
        }
        return Ok(NativeScale::Aggregate { y_factor: src_h / dst_h, x_factor: src_w / dst_w });
    }
    Err(RustySatError::unsupported("native resampling cannot mix expansion and reduction axes"))
}

/// The error of a scale, if there is none between two sizes.
pub open spec fn scale_error(src: (usize, usize), dst: (usize, usize)) -> Option<ErrorView> {
    if src == dst {
        None
    } else if dst.0 >= src.0 && dst.1 >= src.1 {
        if dst.0 % src.0 == 0 && dst.1 % src.1 == 0 {
            None
        } else {
            Some(ErrorView::Unsupported("native expansion requires integer y/x repeat factors"@))
        }
    } else if dst.0 <= src.0 && dst.1 <= src.1 {
        if src.0 % dst.0 == 0 && src.1 % dst.1 == 0 {
            None
        } else {
            Some(
                ErrorView::Unsupported("native reduction requires integer y/x aggregation factors"@),
            )
        }
    } else {
        Some(ErrorView::Unsupported("native resampling cannot mix expansion and reduction axes"@))
    }
}

/// The scale from one size to another.
pub open spec fn scale_of(src: (usize, usize), dst: (usize, usize)) -> NativeScale {
    if src == dst {
        NativeScale::Identity
    } else if dst.0 >= src.0 && dst.1 >= src.1 {
        NativeScale::Repeat {
            y_factor: (dst.0 / src.0) as usize,
            x_factor: (dst.1 / src.1) as usize,
        }
    } else {
        NativeScale::Aggregate {
            y_factor: (src.0 / dst.0) as usize,
            x_factor: (src.1 / dst.1) as usize,
        }
    }
}

pub open spec fn scale_outcome(
    r: Result<NativeScale>,
    src: (usize, usize),
    dst: (usize, usize),
) -> bool {
    match scale_error(src, dst) {
        Some(e) => fails_with(r, e),
        None => r is Ok && r->Ok_0 == scale_of(src, dst),
    }
}

proof fn lemma_exact_quotient(a: nat, b: nat)
    requires
        b > 0,
        a % b == 0,
    ensures
        (a / b) * b == a,
        a >= b ==> a / b > 0,
{
    vstd::arithmetic::div_mod::lemma_fundamental_div_mod(a as int, b as int);
    assert((a / b) * b == b * (a / b)) by (nonlinear_arith);
    if a >= b {
        assert(a / b > 0) by (nonlinear_arith)
            requires
                a >= b,
                b > 0,
                a == b * (a / b),
        ;
    }
}

/// A scale leads to the target: repeating multiplies the source size, aggregating
/// divides it, by factors that are not zero.
pub proof fn lemma_scale_reaches_target(src: (usize, usize), dst: (usize, usize))
    requires
        src.0 > 0,
        src.1 > 0,
        dst.0 > 0,
        dst.1 > 0,
        scale_error(src, dst) is None,
    ensures
        match scale_of(src, dst) {
            NativeScale::Identity => src == dst,
            NativeScale::Repeat { y_factor, x_factor } => {
                &&& y_factor > 0 && x_factor > 0
                &&& src.0 * y_factor == dst.0
                &&& src.1 * x_factor == dst.1
            },
            NativeScale::Aggregate { y_factor, x_factor } => {
                &&& y_factor > 0 && x_factor > 0
                &&& dst.0 * y_factor == src.0
                &&& dst.1 * x_factor == src.1
                &&& src.0 % y_factor == 0 && src.1 % x_factor == 0
                &&& src.0 / y_factor == dst.0 && src.1 / x_factor == dst.1
            },
        },
{
    if src != dst {
        if dst.0 >= src.0 && dst.1 >= src.1 {
            lemma_exact_quotient(dst.0 as nat, src.0 as nat);
            lemma_exact_quotient(dst.1 as nat, src.1 as nat);
            assert(src.0 * (dst.0 / src.0) == (dst.0 / src.0) * src.0) by (nonlinear_arith);
            assert(src.1 * (dst.1 / src.1) == (dst.1 / src.1) * src.1) by (nonlinear_arith);
        } else {
            lemma_exact_quotient(src.0 as nat, dst.0 as nat);
            lemma_exact_quotient(src.1 as nat, dst.1 as nat);
            assert(dst.0 * (src.0 / dst.0) == (src.0 / dst.0) * dst.0) by (nonlinear_arith);
            assert(dst.1 * (src.1 / dst.1) == (src.1 / dst.1) * dst.1) by (nonlinear_arith);
            let yf = (src.0 / dst.0) as int;
            let xf = (src.1 / dst.1) as int;
            lemma_fundamental_div_mod_converse(src.0 as int, yf, dst.0 as int, 0);
            lemma_fundamental_div_mod_converse(src.1 as int, xf, dst.1 as int, 0);
        }
    }
}

pub fn validate_repeat_factors(y_factor: usize, x_factor: usize) -> (r: Result<()>)
    ensures
        y_factor == 0 || x_factor == 0 ==> is_invalid(r, "native repeat factors must be non-zero"@),
        y_factor > 0 && x_factor > 0 ==> r is Ok,
{
    if y_factor == 0 || x_factor == 0 {
        return Err(RustySatError::invalid_input("native repeat factors must be non-zero"));
    }
    Ok(())
}

pub fn validate_aggregate_factors(
    height: usize,
    width: usize,
    y_factor: usize,
    x_factor: usize,
) -> (r: Result<()>)
    ensures
        y_factor == 0 || x_factor == 0 ==> is_invalid(r, "native repeat factors must be non-zero"@),
        y_factor > 0 && x_factor > 0 && (height % y_factor != 0 || width % x_factor != 0)
            ==> is_invalid(
            r,
            "native aggregation factors must evenly divide the source shape"@,
        ),
        y_factor > 0 && x_factor > 0 && height % y_factor == 0 && width % x_factor == 0 ==> r is Ok,
{
    match validate_repeat_factors(y_factor, x_factor) {
        Ok(()) => {},
        Err(e) => {
            return Err(e);
        },
    }
    if height % y_factor != 0 || width % x_factor != 0 {
        return Err(
            RustySatError::invalid_input(
                "native aggregation factors must evenly divide the source shape",
            ),
        );
    }
    Ok(())
}

/// The error of an array without the dimension `y` or `x`.
pub open spec fn plane_error(dims: Seq<Seq<char>>) -> Option<ErrorView> {
    if !dims.contains("y"@) {
        Some(ErrorView::InvalidInput("array is missing 'y' dimension"@))
    } else if !dims.contains("x"@) {
        Some(ErrorView::InvalidInput("array is missing 'x' dimension"@))
    } else {
        None
    }
}

/// The size of the plane of an array.
pub open spec fn plane_of<T>(a: ArrayView<T>) -> (usize, usize) {
    (size_along(a, "y"@), size_along(a, "x"@))
}

/// The shape of a repeated array.
pub open spec fn repeated_shape<T>(a: ArrayView<T>, y_factor: usize, x_factor: usize) -> Seq<usize> {
    replaced_plane(
        a.shape,
        y_axis_of(a),
        x_axis_of(a),
        (plane_of(a).0 * y_factor) as usize,
        (plane_of(a).1 * x_factor) as usize,
    )
}

/// The error of a shape whose size is not a positive machine number.
pub open spec fn size_error(shape: Seq<usize>) -> Option<ErrorView> {
    if size_of_shape(shape.take(first_zero(shape) as int)) > usize::MAX {
        Some(ErrorView::InvalidInput("shape size overflows usize"@))
    } else if !no_zero(shape) {
        Some(ErrorView::InvalidInput("shape dimensions must be non-zero"@))
    } else {
        None
    }
}

/// The error with which the repetition of an array by factors that are not zero is
/// refused, if it is.
pub open spec fn repeat_error<T>(a: ArrayView<T>, y_factor: usize, x_factor: usize) -> Option<
    ErrorView,
> {
    if plane_of(a).0 * y_factor > usize::MAX {
        Some(ErrorView::InvalidInput("native y repeat output size overflows usize"@))
    } else if plane_of(a).1 * x_factor > usize::MAX {
        Some(ErrorView::InvalidInput("native x repeat output size overflows usize"@))
    } else if strides_overflow(a.shape) || strides_overflow(repeated_shape(a, y_factor, x_factor)) {
        Some(ErrorView::InvalidInput("stride size overflows usize"@))
    } else {
        size_error(repeated_shape(a, y_factor, x_factor))
    }
}

/// The source element whose value a repeated element has.
pub open spec fn repeat_source<T>(
    a: ArrayView<T>,
    y_factor: usize,
    x_factor: usize,
    offset: nat,
) -> nat {
    let idx = unravel(repeated_shape(a, y_factor, x_factor), offset);
    ravel(
        a.shape,
        idx.update(y_axis_of(a), idx[y_axis_of(a)] / (y_factor as nat)).update(
            x_axis_of(a),
            idx[x_axis_of(a)] / (x_factor as nat),
        ),
    )
}

/// The flags of a repeated array.
pub open spec fn repeated_flags<T>(a: ArrayView<T>, y_factor: usize, x_factor: usize) -> Seq<bool> {
    Seq::new(
        size_of_shape(repeated_shape(a, y_factor, x_factor)),
        |o: int| masked_in(a.mask, repeat_source(a, y_factor, x_factor, o as nat) as int),
    )
}

/// A repeated array with the coordinates that are kept.
pub open spec fn repeated_array<T>(a: ArrayView<T>, y_factor: usize, x_factor: usize) -> ArrayView<
    T,
> {
    ArrayView {
        shape: repeated_shape(a, y_factor, x_factor),
        dims: a.dims,
        values: Seq::new(
            size_of_shape(repeated_shape(a, y_factor, x_factor)),
            |o: int| a.values[repeat_source(a, y_factor, x_factor, o as nat) as int],
        ),
        mask: mask_of(repeated_flags(a, y_factor, x_factor)),
        coords: kept_coordinates(PlaneNames::Area, a.coords),
    }
}

proof fn lemma_plane_axes<T>(a: ArrayView<T>)
    requires
        a.dims.contains("y"@),
        a.dims.contains("x"@),
    ensures
        0 <= y_axis_of(a) < a.dims.len(),
        0 <= x_axis_of(a) < a.dims.len(),
        y_axis_of(a) != x_axis_of(a),
        a.dims[y_axis_of(a)] == "y"@,
        a.dims[x_axis_of(a)] == "x"@,
{
    lemma_position_in(a.dims, "y"@);
    lemma_position_in(a.dims, "x"@);
    lemma_y_is_not_x();
}

proof fn lemma_quotient_below(i: nat, d: nat, f: nat)
    requires
        i < d * f,
        f > 0,
    ensures
        i / f < d,
{
    assert(i / f < d) by (nonlinear_arith)
        requires
            i < d * f,
            f > 0,
    ;
}

proof fn lemma_repeat_source_bounded<T>(
    a: ArrayView<T>,
    y_factor: usize,
    x_factor: usize,
    offset: nat,
)
    requires
        array_ok(a),
        a.dims.contains("y"@),
        a.dims.contains("x"@),
        y_factor > 0,
        x_factor > 0,
        repeat_error(a, y_factor, x_factor) is None,
    ensures
        ({
            let idx = unravel(repeated_shape(a, y_factor, x_factor), offset);
            in_bounds(
                a.shape,
                idx.update(y_axis_of(a), idx[y_axis_of(a)] / (y_factor as nat)).update(
                    x_axis_of(a),
                    idx[x_axis_of(a)] / (x_factor as nat),
                ),
            )
        }),
        repeat_source(a, y_factor, x_factor, offset) < a.values.len(),
{
    lemma_plane_axes(a);
    let out = repeated_shape(a, y_factor, x_factor);
    lemma_ravel_unravel(out, offset);
    let idx = unravel(out, offset);
    let y = y_axis_of(a);
    let x = x_axis_of(a);
    assert(out[y] == plane_of(a).0 * y_factor);
    assert(out[x] == plane_of(a).1 * x_factor);
    lemma_quotient_below(idx[y], a.shape[y] as nat, y_factor as nat);
    lemma_quotient_below(idx[x], a.shape[x] as nat, x_factor as nat);
    let to = idx.update(y, idx[y] / (y_factor as nat)).update(x, idx[x] / (x_factor as nat));
    assert forall|k: int| 0 <= k < a.shape.len() implies to[k] < a.shape[k] by {
        if k != y && k != x {
            assert(out[k] == a.shape[k]);
        }
    }
    lemma_ravel_bounded(a.shape, to);
}

/// The positions of the dimensions `y` and `x`.
pub fn yx_dim_indices(dims: &Vec<String>) -> (r: Result<(usize, usize)>)
    ensures
        !texts(dims@).contains("y"@) ==> is_invalid(
            r,
            "native y/x resampling requires a 'y' dimension"@,
        ),
        texts(dims@).contains("y"@) && !texts(dims@).contains("x"@) ==> is_invalid(
            r,
            "native y/x resampling requires an 'x' dimension"@,
        ),
        texts(dims@).contains("y"@) && texts(dims@).contains("x"@) ==> r is Ok,
        r is Ok ==> r->Ok_0.0 < dims@.len() && r->Ok_0.1 < dims@.len() && r->Ok_0 == (
            position_in(texts(dims@), "y"@) as usize,
            position_in(texts(dims@), "x"@) as usize,
        ) && r->Ok_0.0 == position_in(texts(dims@), "y"@) && r->Ok_0.1 == position_in(
            texts(dims@),
            "x"@,
        ),
{
    let y: usize = match crate::text::position_of(dims, "y") {
        Some(i) => i,
        None => {
            return Err(
                RustySatError::invalid_input("native y/x resampling requires a 'y' dimension"),
            );
        },
    };
    let x: usize = match crate::text::position_of(dims, "x") {
        Some(i) => i,
        None => {
            return Err(
                RustySatError::invalid_input("native y/x resampling requires an 'x' dimension"),
            );
        },
    };
    Ok((y, x))
}

/// The source element whose value the repeated element `offset` has.
fn repeat_source_index<T: Copy>(
    source: &DataArray<T>,
    output_shape: &Vec<usize>,
    source_strides: &Vec<usize>,
    output_strides: &Vec<usize>,
    y_dim: usize,
    x_dim: usize,
    y_factor: usize,
    x_factor: usize,
    offset: usize,
) -> (r: usize)
    requires
        source@.dims.contains("y"@),
        source@.dims.contains("x"@),
        y_dim == y_axis_of(source@),
        x_dim == x_axis_of(source@),
        y_factor > 0,
        x_factor > 0,
        repeat_error(source@, y_factor, x_factor) is None,
        output_shape@ == repeated_shape(source@, y_factor, x_factor),
        strides_of(source_strides@, source@.shape),
        strides_of(output_strides@, output_shape@),
    ensures
        r == repeat_source(source@, y_factor, x_factor, offset as nat),
        r < source@.values.len(),
{
    let ghost a = source@;
    proof {
        use_type_invariant(source);
        lemma_plane_axes(a);
    }
    let mut indexes = unravel_offset(offset, output_shape.as_slice(), output_strides.as_slice());
    let ghost idx = unravel(output_shape@, offset as nat);
    proof {
        assert(indexes@.map_values(|i: usize| i as nat).len() == idx.len());
        assert(indexes@.map_values(|i: usize| i as nat)[y_dim as int] == idx[y_dim as int]);
        assert(indexes@.map_values(|i: usize| i as nat)[x_dim as int] == idx[x_dim as int]);
        lemma_repeat_source_bounded(a, y_factor, x_factor, offset as nat);
    }
    let y: usize = indexes[y_dim] / y_factor;
    let x: usize = indexes[x_dim] / x_factor;
    let ghost before = indexes@;
    indexes.set(y_dim, y);
    indexes.set(x_dim, x);
    proof {
        let to = idx.update(y_dim as int, idx[y_dim as int] / (y_factor as nat)).update(
            x_dim as int,
            idx[x_dim as int] / (x_factor as nat),
        );
        assert forall|k: int| 0 <= k < to.len() implies indexes@.map_values(|i: usize| i as nat)[k]
            == to[k] by {
            assert(before.map_values(|i: usize| i as nat)[k] == before[k] as nat);
        }
        assert(indexes@.map_values(|i: usize| i as nat) =~= to);
    }
    linear_index(indexes.as_slice(), source.shape_nd().as_slice(), source_strides.as_slice())
}

/// The values and flags of a repeated array.
fn repeat_elements<T: Copy>(
    source: &DataArray<T>,
    output_shape: &Vec<usize>,
    output_size: usize,
    source_strides: &Vec<usize>,
    output_strides: &Vec<usize>,
    y_dim: usize,
    x_dim: usize,
    y_factor: usize,
    x_factor: usize,
) -> (r: (Vec<T>, Vec<bool>))
    requires
        source@.dims.contains("y"@),
        source@.dims.contains("x"@),
        y_dim == y_axis_of(source@),
        x_dim == x_axis_of(source@),
        y_factor > 0,
        x_factor > 0,
        repeat_error(source@, y_factor, x_factor) is None,
        output_shape@ == repeated_shape(source@, y_factor, x_factor),
        output_size == size_of_shape(output_shape@),
        strides_of(source_strides@, source@.shape),
        strides_of(output_strides@, output_shape@),
    ensures
        r.0@ == repeated_array(source@, y_factor, x_factor).values,
        source@.mask is Some ==> r.1@ == repeated_flags(source@, y_factor, x_factor),
        source@.mask is None ==> r.1@.len() == 0,
{
    let ghost a = source@;
    proof {
        use_type_invariant(source);
        lemma_plane_axes(a);
    }
    let mut values: Vec<T> = Vec::new();
    let mut flags: Vec<bool> = Vec::new();
    let mut o: usize = 0;
    while o < output_size
        invariant
            o <= output_size,
            a == source@,
            array_ok(a),
            a.dims.contains("y"@),
            a.dims.contains("x"@),
            y_dim == y_axis_of(a),
            x_dim == x_axis_of(a),
            y_dim < a.shape.len(),
            x_dim < a.shape.len(),
            y_dim != x_dim,
            y_factor > 0,
            x_factor > 0,
            repeat_error(a, y_factor, x_factor) is None,
            output_shape@ == repeated_shape(a, y_factor, x_factor),
            output_size == size_of_shape(output_shape@),
            strides_of(source_strides@, a.shape),
            strides_of(output_strides@, output_shape@),
            values@.len() == o,
            a.mask is Some ==> flags@.len() == o,
            a.mask is None ==> flags@.len() == 0,
            forall|j: int|
                0 <= j < o ==> values@[j] == a.values[repeat_source(
                    a,
                    y_factor,
                    x_factor,
                    j as nat,
                ) as int],
            forall|j: int|
                a.mask is Some && 0 <= j < o ==> flags@[j] == masked_in(
                    a.mask,
                    repeat_source(a, y_factor, x_factor, j as nat) as int,
                ),
        decreases output_size - o,
    {
        let source_idx: usize = repeat_source_index(
            source,
            output_shape,
            source_strides,
            output_strides,
            y_dim,
            x_dim,
            y_factor,
            x_factor,
            o,
        );
        values.push(source.values()[source_idx]);
        match source.mask() {
            Some(mask) => {
                let masked = match mask.is_masked(source_idx) {
                    Some(m) => m,
                    None => false,
                };
                flags.push(masked);
            },
            None => {},
        }
        o = o + 1;
    }
    proof {
        assert(values@ =~= repeated_array(a, y_factor, x_factor).values);
        if a.mask is Some {
            assert(flags@ =~= repeated_flags(a, y_factor, x_factor));
        }
    }
    (values, flags)
}

/// The outcome of the repetition of an array: its error, or the repeated array.
pub open spec fn repeat_outcome<T: Copy>(
    r: Result<DataArray<T>>,
    a: ArrayView<T>,
    y_factor: usize,
    x_factor: usize,
) -> bool {
    match repeat_error(a, y_factor, x_factor) {
        Some(e) => fails_with(r, e),
        None => r is Ok && r->Ok_0@ == repeated_array(a, y_factor, x_factor),
    }
}

fn repeat_yx_from_parts<T: Copy>(source: &DataArray<T>, y_factor: usize, x_factor: usize) -> (r:
    Result<DataArray<T>>)
    requires
        source@.dims.contains("y"@),
        source@.dims.contains("x"@),
        y_factor > 0,
        x_factor > 0,
    ensures
        repeat_outcome(r, source@, y_factor, x_factor),
{
    let ghost a = source@;
    proof {
        use_type_invariant(source);
        lemma_plane_axes(a);
    }
    let (y_dim, x_dim) = match yx_dim_indices(source.dims()) {
        Ok(p) => p,
        Err(e) => {
            return Err(e);
        },
    };
    let mut output_shape: Vec<usize> = copy_values(source.shape_nd());
    let height: usize = match output_shape[y_dim].checked_mul(y_factor) {
        Some(n) => n,
        None => {
            return Err(
                RustySatError::invalid_input("native y repeat output size overflows usize"),
            );
        },
    };
    let width: usize = match output_shape[x_dim].checked_mul(x_factor) {
        Some(n) => n,
        None => {
            return Err(
                RustySatError::invalid_input("native x repeat output size overflows usize"),
            );
        },
    };
    output_shape.set(y_dim, height);
    output_shape.set(x_dim, width);
    let ghost out = repeated_shape(a, y_factor, x_factor);
    assert(output_shape@ == out);
    let source_strides = match row_major_strides(source.shape_nd().as_slice()) {
        Ok(v) => v,
        Err(e) => {
            return Err(e);
        },
    };
    let output_strides = match row_major_strides(output_shape.as_slice()) {
        Ok(v) => v,
        Err(e) => {
            return Err(e);
        },
    };
    proof {
        if no_zero(out) {
            lemma_first_zero_of_no_zero(out);
        }
    }
    let output_size: usize = match checked_shape_size(output_shape.as_slice()) {
        Ok(n) => n,
        Err(e) => {
            return Err(e);
        },
    };
    let (values, flags) = repeat_elements(
        source,
        &output_shape,
        output_size,
        &source_strides,
        &output_strides,
        y_dim,
        x_dim,
        y_factor,
        x_factor,
    );
    proof {
        if a.mask is None {
            assert(!any_set(flags@));
            assert(!any_set(repeated_flags(a, y_factor, x_factor)));
        }
    }
    let dims = copy_texts(source.dims());
    let array = match finish_array(output_shape, dims, values, flags) {
        Ok(v) => v,
        Err(e) => {
            return Err(e);
        },
    };
    proof {
        assert forall|k: Seq<char>| #[trigger]
            a.coords.dom().contains(k) && keeps_coordinate(
                PlaneNames::Area,
                k,
                a.coords[k].dims,
            ) implies fits(a.coords[k], a.dims, out) by {
            lemma_kept_fits_resized(PlaneNames::Area, k, a.coords[k], a.dims, a.shape, out);
        }
        assert(Map::<Seq<char>, CoordinateView>::empty().union_prefer_right(
            kept_coordinates(PlaneNames::Area, a.coords),
        ) =~= kept_coordinates(PlaneNames::Area, a.coords));
    }
    let r = add_preserved_coords(array, PlaneNames::Area, source.coords());
    assert(r is Ok);
    assert(r->Ok_0@ =~= repeated_array(a, y_factor, x_factor));
    r
}

/// Repeats the pixels of a grid. The factors are examined before the dimensions.
pub fn native_repeat_yx(source_grid: &DataGrid, y_factor: usize, x_factor: usize) -> (r: Result<
    DataGrid,
>)
    ensures
        y_factor == 0 || x_factor == 0 ==> is_invalid(r, "native repeat factors must be non-zero"@),
        y_factor > 0 && x_factor > 0 ==> match plane_error(source_grid@.dims) {
            Some(e) => fails_with(r, e),
            None => repeat_outcome(r, source_grid@, y_factor, x_factor),
        },
{
    match validate_repeat_factors(y_factor, x_factor) {
        Ok(()) => {},
        Err(e) => {
            return Err(e);
        },
    }
    match source_grid.shape_yx() {
        Ok(_) => {},
        Err(e) => {
            return Err(e);
        },
    }
    repeat_yx_from_parts(source_grid, y_factor, x_factor)
}

/// Repeats the pixels of an array of any element type. The dimensions are examined
/// before the factors.
pub fn native_repeat_yx_typed<T: Copy>(
    source_array: &DataArray<T>,
    y_factor: usize,
    x_factor: usize,
) -> (r: Result<DataArray<T>>)
    ensures
        match plane_error(source_array@.dims) {
            Some(e) => fails_with(r, e),
            None => if y_factor == 0 || x_factor == 0 {
                is_invalid(r, "native repeat factors must be non-zero"@)
            } else {
                repeat_outcome(r, source_array@, y_factor, x_factor)
            },
        },
{
    match source_array.shape_yx() {
        Ok(_) => {},
        Err(e) => {
            return Err(e);
        },
    }
    match validate_repeat_factors(y_factor, x_factor) {
        Ok(()) => {},
        Err(e) => {
            return Err(e);
        },
    }
    repeat_yx_from_parts(source_array, y_factor, x_factor)
}

/// Repeats the pixels of a grid that is not needed any more.
pub fn native_repeat_yx_owned(source_grid: DataGrid, y_factor: usize, x_factor: usize) -> (r: Result<
    DataGrid,
>)
    ensures
        match plane_error(source_grid@.dims) {
            Some(e) => fails_with(r, e),
            None => if y_factor == 0 || x_factor == 0 {
                is_invalid(r, "native repeat factors must be non-zero"@)
            } else {
                repeat_outcome(r, source_grid@, y_factor, x_factor)
            },
        },
{
    native_repeat_yx_typed(&source_grid, y_factor, x_factor)
}

/// Repeats the pixels of an array that is not needed any more.
pub fn native_repeat_yx_typed_owned<T: Copy>(
    source_array: DataArray<T>,
    y_factor: usize,
    x_factor: usize,
) -> (r: Result<DataArray<T>>)
    ensures
        match plane_error(source_array@.dims) {
            Some(e) => fails_with(r, e),
            None => if y_factor == 0 || x_factor == 0 {
                is_invalid(r, "native repeat factors must be non-zero"@)
            } else {
                repeat_outcome(r, source_array@, y_factor, x_factor)
            },
        },
{
    native_repeat_yx_typed(&source_array, y_factor, x_factor)
}

/// The shape of an aggregated array.
pub open spec fn aggregated_shape<T>(a: ArrayView<T>, y_factor: usize, x_factor: usize) -> Seq<
    usize,
> {
    replaced_plane(
        a.shape,
        y_axis_of(a),
        x_axis_of(a),
        (plane_of(a).0 / y_factor) as usize,
        (plane_of(a).1 / x_factor) as usize,
    )
}

/// The error with which the aggregation of an array is refused, if it is.
pub open spec fn aggregate_error<T>(a: ArrayView<T>, y_factor: usize, x_factor: usize) -> Option<
    ErrorView,
> {
    if y_factor == 0 || x_factor == 0 {
        Some(ErrorView::InvalidInput("native repeat factors must be non-zero"@))
    } else if plane_of(a).0 % y_factor != 0 || plane_of(a).1 % x_factor != 0 {
        Some(
            ErrorView::InvalidInput("native aggregation factors must evenly divide the source shape"@),
        )
    } else if strides_overflow(a.shape) || strides_overflow(aggregated_shape(a, y_factor, x_factor)) {
        Some(ErrorView::InvalidInput("stride size overflows usize"@))
    } else {
        size_error(aggregated_shape(a, y_factor, x_factor))
    }
}

/// The indices of the source element at `(dy, dx)` in the block of a target element.
pub open spec fn block_indices<T>(
    a: ArrayView<T>,
    y_factor: usize,
    x_factor: usize,
    offset: nat,
    dy: nat,
    dx: nat,
) -> Seq<nat> {
    let idx = unravel(aggregated_shape(a, y_factor, x_factor), offset);
    idx.update(y_axis_of(a), idx[y_axis_of(a)] * (y_factor as nat) + dy).update(
        x_axis_of(a),
        idx[x_axis_of(a)] * (x_factor as nat) + dx,
    )
}

/// The source element at `(dy, dx)` in the block of a target element.
pub open spec fn block_source<T>(
    a: ArrayView<T>,
    y_factor: usize,
    x_factor: usize,
    offset: nat,
    dy: nat,
    dx: nat,
) -> nat {
    ravel(a.shape, block_indices(a, y_factor, x_factor, offset, dy, dx))
}

/// Whether a source element has a value: it is not masked, and it is finite.
pub open spec fn contributes(a: ArrayView<F64>, source: nat) -> bool {
    !masked_in(a.mask, source as int) && a.values[source as int].finite()
}

/// The values of the first `n` elements of a block, row by row, without those that
/// have none.
pub open spec fn block_values(
    a: ArrayView<F64>,
    y_factor: usize,
    x_factor: usize,
    offset: nat,
    n: nat,
) -> Seq<F64>
    decreases n,
{
    if n == 0 {
        Seq::empty()
    } else {
        let t = (n - 1) as nat;
        let source = block_source(
            a,
            y_factor,
            x_factor,
            offset,
            (t as int / x_factor as int) as nat,
            (t as int % x_factor as int) as nat,
        );
        let before = block_values(a, y_factor, x_factor, offset, t);
        if contributes(a, source) {
            before.push(a.values[source as int])
        } else {
            before
        }
    }
}

/// The values of the whole block of a target element.
pub open spec fn block_of(a: ArrayView<F64>, y_factor: usize, x_factor: usize, offset: nat) -> Seq<
    F64,
> {
    block_values(a, y_factor, x_factor, offset, (y_factor * x_factor) as nat)
}

/// Whether `out` is what `mean` gives for these values.
pub open spec fn mean_gives<M: Fn(Vec<F64>) -> F64>(mean: M, values: Seq<F64>, out: F64) -> bool {
    exists|v: Vec<F64>| v@ == values && #[trigger] mean.ensures((v,), out)
}

/// The flags of an aggregated array: a block without values has none.
pub open spec fn aggregated_flags(a: ArrayView<F64>, y_factor: usize, x_factor: usize) -> Seq<bool> {
    Seq::new(
        size_of_shape(aggregated_shape(a, y_factor, x_factor)),
        |o: int| block_of(a, y_factor, x_factor, o as nat).len() == 0,
    )
}

/// Whether `out` is the aggregated array with the given coordinates: each element is
/// the mean of its block, and is masked and not a number where the block is empty.
pub open spec fn is_aggregated<M: Fn(Vec<F64>) -> F64>(
    out: ArrayView<F64>,
    a: ArrayView<F64>,
    y_factor: usize,
    x_factor: usize,
    mean: M,
    coords: Map<Seq<char>, CoordinateView>,
) -> bool {
    &&& out.shape == aggregated_shape(a, y_factor, x_factor)
    &&& out.dims == a.dims
    &&& out.coords == coords
    &&& out.mask == mask_of(aggregated_flags(a, y_factor, x_factor))
    &&& out.values.len() == size_of_shape(out.shape)
    &&& forall|o: int|
        0 <= o < out.values.len() ==> if block_of(a, y_factor, x_factor, o as nat).len() == 0 {
            #[trigger] out.values[o] == F64 { bits: NAN_BITS_64 }
        } else {
            mean_gives(mean, block_of(a, y_factor, x_factor, o as nat), out.values[o])
        }
}

#[verifier::spinoff_prover]
proof fn lemma_block_bounded<T>(
    a: ArrayView<T>,
    y_factor: usize,
    x_factor: usize,
    offset: nat,
    dy: nat,
    dx: nat,
)
    requires
        array_ok(a),
        a.dims.contains("y"@),
        a.dims.contains("x"@),
        aggregate_error(a, y_factor, x_factor) is None,
        dy < y_factor,
        dx < x_factor,
    ensures
        in_bounds(a.shape, block_indices(a, y_factor, x_factor, offset, dy, dx)),
        block_source(a, y_factor, x_factor, offset, dy, dx) < a.values.len(),
        ({
            let idx = unravel(aggregated_shape(a, y_factor, x_factor), offset);
            idx[y_axis_of(a)] * (y_factor as nat) + dy < plane_of(a).0 && idx[x_axis_of(a)]
                * (x_factor as nat) + dx < plane_of(a).1
        }),
{
    lemma_plane_axes(a);
    let out = aggregated_shape(a, y_factor, x_factor);
    lemma_ravel_unravel(out, offset);
    let idx = unravel(out, offset);
    let y = y_axis_of(a);
    let x = x_axis_of(a);
    lemma_exact_quotient(plane_of(a).0 as nat, y_factor as nat);
    lemma_exact_quotient(plane_of(a).1 as nat, x_factor as nat);
    lemma_inside_block(idx[y], dy, y_factor as nat, out[y] as nat);
    lemma_inside_block(idx[x], dx, x_factor as nat, out[x] as nat);
    let to = block_indices(a, y_factor, x_factor, offset, dy, dx);
    assert forall|k: int| 0 <= k < a.shape.len() implies to[k] < a.shape[k] by {
        if k != y && k != x {
            assert(out[k] == a.shape[k]);
        }
    }
    lemma_ravel_bounded(a.shape, to);
}

proof fn lemma_inside_block(i: nat, d: nat, f: nat, n: nat)
    requires
        i < n,
        d < f,
    ensures
        i * f + d < n * f,
{
    assert(i * f + d < n * f) by (nonlinear_arith)
        requires
            i < n,
            d < f,
    ;
}

/// The source element at `(dy, dx)` in the block with the target indices `indexes`.
fn block_source_index(
    source: &DataGrid,
    source_strides: &Vec<usize>,
    indexes: &Vec<usize>,
    y_dim: usize,
    x_dim: usize,
    y_factor: usize,
    x_factor: usize,
    dy: usize,
    dx: usize,
    offset: usize,
) -> (r: usize)
    requires
        source@.dims.contains("y"@),
        source@.dims.contains("x"@),
        y_dim == y_axis_of(source@),
        x_dim == x_axis_of(source@),
        aggregate_error(source@, y_factor, x_factor) is None,
        dy < y_factor,
        dx < x_factor,
        strides_of(source_strides@, source@.shape),
        indexes@.map_values(|i: usize| i as nat) == unravel(
            aggregated_shape(source@, y_factor, x_factor),
            offset as nat,
        ),
    ensures
        r == block_source(source@, y_factor, x_factor, offset as nat, dy as nat, dx as nat),
        r < source@.values.len(),
{
    let ghost a = source@;
    let ghost idx = indexes@.map_values(|i: usize| i as nat);
    proof {
        use_type_invariant(source);
        lemma_plane_axes(a);
        lemma_block_bounded(a, y_factor, x_factor, offset as nat, dy as nat, dx as nat);
        assert(idx.len() == indexes@.len());
        assert(idx[y_dim as int] == indexes@[y_dim as int] as nat);
        assert(idx[x_dim as int] == indexes@[x_dim as int] as nat);
        let p = idx[y_dim as int];
        let q = idx[x_dim as int];
        assert(0 <= p * (y_factor as nat) && 0 <= q * (x_factor as nat)) by (nonlinear_arith);
    }
    let mut source_indexes: Vec<usize> = copy_values(indexes);
    let y: usize = indexes[y_dim] * y_factor + dy;
    let x: usize = indexes[x_dim] * x_factor + dx;
    source_indexes.set(y_dim, y);
    source_indexes.set(x_dim, x);
    proof {
        let to = block_indices(a, y_factor, x_factor, offset as nat, dy as nat, dx as nat);
        assert forall|k: int| 0 <= k < to.len() implies source_indexes@.map_values(
            |i: usize| i as nat,
        )[k] == to[k] by {
            assert(idx[k] == indexes@[k] as nat);
        }
        assert(source_indexes@.map_values(|i: usize| i as nat) =~= to);
    }
    linear_index(source_indexes.as_slice(), source.shape_nd().as_slice(), source_strides.as_slice())
}

proof fn lemma_row_position(dy: nat, dx: nat, xf: nat)
    requires
        dx < xf,
    ensures
        (dy * xf + dx) as int / xf as int == dy,
        (dy * xf + dx) as int % xf as int == dx,
        dy * xf + xf == (dy + 1) * xf,
{
    lemma_fundamental_div_mod_converse((dy * xf + dx) as int, xf as int, dy as int, dx as int);
    assert(dy * xf + xf == (dy + 1) * xf) by (nonlinear_arith);
}

/// The values of a block.
fn collect_block(
    source: &DataGrid,
    source_strides: &Vec<usize>,
    indexes: &Vec<usize>,
    y_dim: usize,
    x_dim: usize,
    y_factor: usize,
    x_factor: usize,
    offset: usize,
) -> (r: Vec<F64>)
    requires
        source@.dims.contains("y"@),
        source@.dims.contains("x"@),
        y_dim == y_axis_of(source@),
        x_dim == x_axis_of(source@),
        aggregate_error(source@, y_factor, x_factor) is None,
        strides_of(source_strides@, source@.shape),
        indexes@.map_values(|i: usize| i as nat) == unravel(
            aggregated_shape(source@, y_factor, x_factor),
            offset as nat,
        ),
    ensures
        r@ == block_of(source@, y_factor, x_factor, offset as nat),
{
    let ghost a = source@;
    let mut out: Vec<F64> = Vec::new();
    let mut dy: usize = 0;
    assert(0 * x_factor == 0) by (nonlinear_arith);
    while dy < y_factor
        invariant
            dy <= y_factor,
            a == source@,
            a.dims.contains("y"@),
            a.dims.contains("x"@),
            y_dim == y_axis_of(a),
            x_dim == x_axis_of(a),
            aggregate_error(a, y_factor, x_factor) is None,
            strides_of(source_strides@, a.shape),
            indexes@.map_values(|i: usize| i as nat) == unravel(
                aggregated_shape(a, y_factor, x_factor),
                offset as nat,
            ),
            out@ == block_values(a, y_factor, x_factor, offset as nat, (dy * x_factor) as nat),
        decreases y_factor - dy,
    {
        let mut dx: usize = 0;
        while dx < x_factor
            invariant
                dx <= x_factor,
                dy < y_factor,
                a == source@,
                a.dims.contains("y"@),
                a.dims.contains("x"@),
                y_dim == y_axis_of(a),
                x_dim == x_axis_of(a),
                aggregate_error(a, y_factor, x_factor) is None,
                strides_of(source_strides@, a.shape),
                indexes@.map_values(|i: usize| i as nat) == unravel(
                    aggregated_shape(a, y_factor, x_factor),
                    offset as nat,
                ),
                0 <= dy * x_factor,
                out@ == block_values(
                    a,
                    y_factor,
                    x_factor,
                    offset as nat,
                    (dy * x_factor + dx) as nat,
                ),
            decreases x_factor - dx,
        {
            proof {
                lemma_row_position(dy as nat, dx as nat, x_factor as nat);
            }
            let source_idx: usize = block_source_index(
                source,
                source_strides,
                indexes,
                y_dim,
                x_dim,
                y_factor,
                x_factor,
                dy,
                dx,
                offset,
            );
            let masked = match source.mask() {
                Some(mask) => match mask.is_masked(source_idx) {
                    Some(m) => m,
                    None => false,
                },
                None => false,
            };
            if !masked {
                let value = source.values()[source_idx];
                if value.is_finite() {
                    out.push(value);
                }
            }
            dx = dx + 1;
        }
        proof {
            assert(dy * x_factor + x_factor == (dy + 1) * x_factor) by (nonlinear_arith);
        }
        dy = dy + 1;
    }
    out
}

/// The mean values and flags of an aggregated array.
fn aggregate_elements<M: Fn(Vec<F64>) -> F64>(
    source: &DataGrid,
    output_shape: &Vec<usize>,
    output_size: usize,
    source_strides: &Vec<usize>,
    output_strides: &Vec<usize>,
    y_dim: usize,
    x_dim: usize,
    y_factor: usize,
    x_factor: usize,
    mean: &M,
) -> (r: (Vec<F64>, Vec<bool>))
    requires
        source@.dims.contains("y"@),
        source@.dims.contains("x"@),
        y_dim == y_axis_of(source@),
        x_dim == x_axis_of(source@),
        aggregate_error(source@, y_factor, x_factor) is None,
        output_shape@ == aggregated_shape(source@, y_factor, x_factor),
        output_size == size_of_shape(output_shape@),
        strides_of(source_strides@, source@.shape),
        strides_of(output_strides@, output_shape@),
        forall|v: Vec<F64>| #[trigger] mean.requires((v,)),
    ensures
        r.1@ == aggregated_flags(source@, y_factor, x_factor),
        r.0@.len() == output_size,
        forall|o: int|
            0 <= o < output_size ==> if block_of(
                source@,
                y_factor,
                x_factor,
                o as nat,
            ).len() == 0 {
                #[trigger] r.0@[o] == F64 { bits: NAN_BITS_64 }
            } else {
                mean_gives(*mean, block_of(source@, y_factor, x_factor, o as nat), r.0@[o])
            },
{
    let ghost a = source@;
    let mut values: Vec<F64> = Vec::new();
    let mut flags: Vec<bool> = Vec::new();
    let mut offset: usize = 0;
    while offset < output_size
        invariant
            offset <= output_size,
            a == source@,
            a.dims.contains("y"@),
            a.dims.contains("x"@),
            y_dim == y_axis_of(a),
            x_dim == x_axis_of(a),
            aggregate_error(a, y_factor, x_factor) is None,
            output_shape@ == aggregated_shape(a, y_factor, x_factor),
            output_size == size_of_shape(output_shape@),
            strides_of(source_strides@, a.shape),
            strides_of(output_strides@, output_shape@),
            forall|v: Vec<F64>| #[trigger] mean.requires((v,)),
            values@.len() == offset,
            flags@.len() == offset,
            forall|o: int|
                0 <= o < offset ==> #[trigger] flags@[o] == (block_of(
                    a,
                    y_factor,
                    x_factor,
                    o as nat,
                ).len() == 0),
            forall|o: int|
                0 <= o < offset ==> if block_of(a, y_factor, x_factor, o as nat).len() == 0 {
                    #[trigger] values@[o] == F64 { bits: NAN_BITS_64 }
                } else {
                    mean_gives(*mean, block_of(a, y_factor, x_factor, o as nat), values@[o])
                },
        decreases output_size - offset,
    {
        let indexes = unravel_offset(offset, output_shape.as_slice(), output_strides.as_slice());
        let block = collect_block(
            source,
            source_strides,
            &indexes,
            y_dim,
            x_dim,
            y_factor,
            x_factor,
            offset,
        );
        if block.len() == 0 {
            values.push(F64 { bits: NAN_BITS_64 });
            flags.push(true);
        } else {
            let m = mean(block);
            assert(mean_gives(*mean, block_of(a, y_factor, x_factor, offset as nat), m));
            values.push(m);
            flags.push(false);
        }
        offset = offset + 1;
    }
    assert(flags@ =~= aggregated_flags(a, y_factor, x_factor));
    (values, flags)
}

/// The outcome of the aggregation of an array: its error, or the aggregated array
/// with the coordinates that are kept.
pub open spec fn aggregate_outcome<M: Fn(Vec<F64>) -> F64>(
    r: Result<DataGrid>,
    a: ArrayView<F64>,
    y_factor: usize,
    x_factor: usize,
    mean: M,
) -> bool {
    match aggregate_error(a, y_factor, x_factor) {
        Some(e) => fails_with(r, e),
        None => r is Ok && is_aggregated(
            r->Ok_0@,
            a,
            y_factor,
            x_factor,
            mean,
            kept_coordinates(PlaneNames::Area, a.coords),
        ),
    }
}

fn aggregate_mean_yx_from_parts<M: Fn(Vec<F64>) -> F64>(
    source: &DataGrid,
    y_factor: usize,
    x_factor: usize,
    mean: &M,
) -> (r: Result<DataGrid>)
    requires
        source@.dims.contains("y"@),
        source@.dims.contains("x"@),
        forall|v: Vec<F64>| #[trigger] mean.requires((v,)),
    ensures
        aggregate_outcome(r, source@, y_factor, x_factor, *mean),
{
    let ghost a = source@;
    proof {
        use_type_invariant(source);
        lemma_plane_axes(a);
    }
    let (y_dim, x_dim) = match yx_dim_indices(source.dims()) {
        Ok(p) => p,
        Err(e) => {
            return Err(e);
        },
    };
    let mut output_shape: Vec<usize> = copy_values(source.shape_nd());
    let height: usize = output_shape[y_dim];
    let width: usize = output_shape[x_dim];
    match validate_aggregate_factors(height, width, y_factor, x_factor) {
        Ok(()) => {},
        Err(e) => {
            return Err(e);
        },
    }
    output_shape.set(y_dim, height / y_factor);
    output_shape.set(x_dim, width / x_factor);
    let ghost out = aggregated_shape(a, y_factor, x_factor);
    assert(output_shape@ == out);
    let source_strides = match row_major_strides(source.shape_nd().as_slice()) {
        Ok(v) => v,
        Err(e) => {
            return Err(e);
        },
    };
    let output_strides = match row_major_strides(output_shape.as_slice()) {
        Ok(v) => v,
        Err(e) => {
            return Err(e);
        },
    };
    proof {
        if no_zero(out) {
            lemma_first_zero_of_no_zero(out);
        }
    }
    let output_size: usize = match checked_shape_size(output_shape.as_slice()) {
        Ok(n) => n,
        Err(e) => {
            return Err(e);
        },
    };
    let (values, flags) = aggregate_elements(
        source,
        &output_shape,
        output_size,
        &source_strides,
        &output_strides,
        y_dim,
        x_dim,
        y_factor,
        x_factor,
        mean,
    );
    let dims = copy_texts(source.dims());
    let array = match finish_array(output_shape, dims, values, flags) {
        Ok(v) => v,
        Err(e) => {
            return Err(e);
        },
    };
    proof {
        assert forall|k: Seq<char>| #[trigger]
            a.coords.dom().contains(k) && keeps_coordinate(
                PlaneNames::Area,
                k,
                a.coords[k].dims,
            ) implies fits(a.coords[k], a.dims, out) by {
            lemma_kept_fits_resized(PlaneNames::Area, k, a.coords[k], a.dims, a.shape, out);
        }
        assert(Map::<Seq<char>, CoordinateView>::empty().union_prefer_right(
            kept_coordinates(PlaneNames::Area, a.coords),
        ) =~= kept_coordinates(PlaneNames::Area, a.coords));
    }
    add_preserved_coords(array, PlaneNames::Area, source.coords())
}

/// Replaces each block of pixels by the mean of its values.
pub fn native_aggregate_mean_yx<M: Fn(Vec<F64>) -> F64>(
    source_grid: &DataGrid,
    y_factor: usize,
    x_factor: usize,
    mean: &M,
) -> (r: Result<DataGrid>)
    requires
        forall|v: Vec<F64>| #[trigger] mean.requires((v,)),
    ensures
        match plane_error(source_grid@.dims) {
            Some(e) => fails_with(r, e),
            None => aggregate_outcome(r, source_grid@, y_factor, x_factor, *mean),
        },
{
    match source_grid.shape_yx() {
        Ok(_) => aggregate_mean_yx_from_parts(source_grid, y_factor, x_factor, mean),
        Err(e) => Err(e),
    }
}

/// Replaces each block of pixels of a grid that is not needed any more by the mean of
/// its values.
pub fn native_aggregate_mean_yx_owned<M: Fn(Vec<F64>) -> F64>(
    source_grid: DataGrid,
    y_factor: usize,
    x_factor: usize,
    mean: &M,
) -> (r: Result<DataGrid>)
    requires
        forall|v: Vec<F64>| #[trigger] mean.requires((v,)),
    ensures
        match plane_error(source_grid@.dims) {
            Some(e) => fails_with(r, e),
            None => aggregate_outcome(r, source_grid@, y_factor, x_factor, *mean),
        },
{
    native_aggregate_mean_yx(&source_grid, y_factor, x_factor, mean)
}

/// The error with which a native resampling is refused, if it is.
pub open spec fn native_error<T>(a: ArrayView<T>, g: AreaGridView) -> Option<ErrorView> {
    let dst = (g.area.height, g.area.width);
    if plane_error(a.dims) is Some {
        plane_error(a.dims)
    } else if scale_error(plane_of(a), dst) is Some {
        scale_error(plane_of(a), dst)
    } else {
        match scale_of(plane_of(a), dst) {
            NativeScale::Identity => None,
            NativeScale::Repeat { y_factor, x_factor } => repeat_error(a, y_factor, x_factor),
            NativeScale::Aggregate { y_factor, x_factor } => aggregate_error(a, y_factor, x_factor),
        }
    }
}

/// An array with the coordinates of the target plane in addition to the given ones.
pub open spec fn on_plane<T>(
    a: ArrayView<T>,
    coords: Map<Seq<char>, CoordinateView>,
    g: AreaGridView,
) -> ArrayView<T> {
    ArrayView { coords: plane_coordinates(coords, g), ..a }
}

/// Whether `out` is the native resampling of an array. `same` are the coordinates that
/// an array of the size of the target keeps.
pub open spec fn is_native<M: Fn(Vec<F64>) -> F64>(
    out: ArrayView<F64>,
    a: ArrayView<F64>,
    g: AreaGridView,
    mean: M,
    same: Map<Seq<char>, CoordinateView>,
) -> bool {
    let kept = kept_coordinates(PlaneNames::Area, a.coords);
    match scale_of(plane_of(a), (g.area.height, g.area.width)) {
        NativeScale::Identity => out == on_plane(a, same, g),
        NativeScale::Repeat { y_factor, x_factor } => out == on_plane(
            repeated_array(a, y_factor, x_factor),
            kept,
            g,
        ),
        NativeScale::Aggregate { y_factor, x_factor } => is_aggregated(
            out,
            a,
            y_factor,
            x_factor,
            mean,
            plane_coordinates(kept, g),
        ),
    }
}

/// The plane of a repeated or aggregated array is that of the target.
proof fn lemma_reaches_plane<T>(a: ArrayView<T>, g: AreaGridView)
    requires
        array_ok(a),
        crate::area::area_grid_ok(g),
        plane_error(a.dims) is None,
        plane_of(a).0 > 0,
        plane_of(a).1 > 0,
        native_error(a, g) is None,
    ensures
        ({
            let dims = a.dims;
            let y = position_in(dims, "y"@) as int;
            let x = position_in(dims, "x"@) as int;
            match scale_of(plane_of(a), (g.area.height, g.area.width)) {
                NativeScale::Identity => has_plane(a, g),
                NativeScale::Repeat { y_factor, x_factor } => {
                    let out = repeated_shape(a, y_factor, x_factor);
                    y_factor > 0 && x_factor > 0 && out[y] == g.area.height && out[x] == g.area.width
                },
                NativeScale::Aggregate { y_factor, x_factor } => {
                    let out = aggregated_shape(a, y_factor, x_factor);
                    out[y] == g.area.height && out[x] == g.area.width
                },
            }
        }),
{
    lemma_plane_axes(a);
    lemma_scale_reaches_target(plane_of(a), (g.area.height, g.area.width));
}

/// Resamples a grid to a plane whose size is a whole multiple or a whole part of its
/// own. A grid that has the size already keeps its coordinates.
pub fn native_resample_yx<M: Fn(Vec<F64>) -> F64>(
    source_grid: &DataGrid,
    destination: &AreaGrid,
    mean: &M,
) -> (r: Result<DataGrid>)
    requires
        plane_error(source_grid@.dims) is None ==> plane_of(source_grid@).0 > 0 && plane_of(
            source_grid@,
        ).1 > 0,
        forall|v: Vec<F64>| #[trigger] mean.requires((v,)),
    ensures
        match native_error(source_grid@, destination@) {
            Some(e) => fails_with(r, e),
            None => r is Ok && is_native(
                r->Ok_0@,
                source_grid@,
                destination@,
                *mean,
                source_grid@.coords,
            ),
        },
{
    native_resample_with(source_grid, destination, mean, true)
}

/// Resamples a grid that is not needed any more. Where it has the size of the target
/// already, only the coordinates outside the plane are kept.
pub fn native_resample_yx_owned<M: Fn(Vec<F64>) -> F64>(
    source_grid: DataGrid,
    destination: &AreaGrid,
    mean: &M,
) -> (r: Result<DataGrid>)
    requires
        plane_error(source_grid@.dims) is None ==> plane_of(source_grid@).0 > 0 && plane_of(
            source_grid@,
        ).1 > 0,
        forall|v: Vec<F64>| #[trigger] mean.requires((v,)),
    ensures
        match native_error(source_grid@, destination@) {
            Some(e) => fails_with(r, e),
            None => r is Ok && is_native(
                r->Ok_0@,
                source_grid@,
                destination@,
                *mean,
                kept_coordinates(PlaneNames::Area, source_grid@.coords),
            ),
        },
{
    native_resample_with(&source_grid, destination, mean, false)
}

fn native_resample_with<M: Fn(Vec<F64>) -> F64>(
    source_grid: &DataGrid,
    destination: &AreaGrid,
    mean: &M,
    keep_all: bool,
) -> (r: Result<DataGrid>)
    requires
        plane_error(source_grid@.dims) is None ==> plane_of(source_grid@).0 > 0 && plane_of(
            source_grid@,
        ).1 > 0,
        forall|v: Vec<F64>| #[trigger] mean.requires((v,)),
    ensures
        match native_error(source_grid@, destination@) {
            Some(e) => fails_with(r, e),
            None => r is Ok && is_native(
                r->Ok_0@,
                source_grid@,
                destination@,
                *mean,
                if keep_all {
                    source_grid@.coords
                } else {
                    kept_coordinates(PlaneNames::Area, source_grid@.coords)
                },
            ),
        },
{
    let ghost a = source_grid@;
    let ghost g = destination@;
    proof {
        use_type_invariant(source_grid);
        use_type_invariant(destination);
    }
    let source_shape = match source_grid.shape_yx() {
        Ok(p) => p,
        Err(e) => {
            return Err(e);
        },
    };
    let scale = match native_scale(source_shape, destination.shape()) {
        Ok(v) => v,
        Err(e) => {
            return Err(e);
        },
    };
    proof {
        if native_error(a, g) is None {
            lemma_reaches_plane(a, g);
        }
        lemma_scale_reaches_target(plane_of(a), (g.area.height, g.area.width));
    }
    match scale {
        NativeScale::Identity => {
            if keep_all {
                let r = add_plane_coords(source_grid.copy(), destination);
                assert(r->Ok_0@ =~= on_plane(a, a.coords, g));
                r
            } else {
                let bare = without_coordinates(source_grid);
                let array = match add_preserved_coords(
                    bare,
                    PlaneNames::Area,
                    source_grid.coords(),
                ) {
                    Ok(v) => v,
                    Err(e) => {
                        proof {
                            assert(kept_fit(PlaneNames::Area, a.coords, a.dims, a.shape));
                        }
                        return Err(e);
                    },
                };
                proof {
                    assert(Map::<Seq<char>, CoordinateView>::empty().union_prefer_right(
                        kept_coordinates(PlaneNames::Area, a.coords),
                    ) =~= kept_coordinates(PlaneNames::Area, a.coords));
                }
                let r = add_plane_coords(array, destination);
                assert(r->Ok_0@ =~= on_plane(a, kept_coordinates(PlaneNames::Area, a.coords), g));
                r
            }
        },
        NativeScale::Repeat { y_factor, x_factor } => {
            match repeat_yx_from_parts(source_grid, y_factor, x_factor) {
                Ok(array) => {
                    let r = add_plane_coords(array, destination);
                    assert(r->Ok_0@ =~= on_plane(
                        repeated_array(a, y_factor, x_factor),
                        kept_coordinates(PlaneNames::Area, a.coords),
                        g,
                    ));
                    r
                },
                Err(e) => Err(e),
            }
        },
        NativeScale::Aggregate { y_factor, x_factor } => {
            match aggregate_mean_yx_from_parts(source_grid, y_factor, x_factor, mean) {
                Ok(array) => add_plane_coords(array, destination),
                Err(e) => Err(e),
            }
        },
    }
}

/// A copy of an array without its coordinates.
fn without_coordinates<T: Copy>(source: &DataArray<T>) -> (r: DataArray<T>)
    ensures
        r@ == (ArrayView { coords: Map::empty(), ..source@ }),
{
    proof {
        use_type_invariant(source);
    }
    let shape = copy_values(source.shape_nd());
    let dims = copy_texts(source.dims());
    let values = copy_values(source.values());
    let made = DataArray::from_vec_named(shape, dims, values);
    assert(made is Ok);
    let bare: DataArray<T> = match made {
        Ok(v) => v,
        Err(_) => source.copy(),
    };
    match source.mask() {
        Some(mask) => {
            let masked = bare.with_mask(mask.copy());
            assert(masked is Ok);
            match masked {
                Ok(v) => v,
                Err(_) => source.copy(),
            }
        },
        None => bare,
    }
}

/// An array of any element type with its values as numbers of 64 bits.
pub open spec fn as_numbers(v: AnyArrayView, numbers: Seq<F64>) -> ArrayView<F64> {
    ArrayView {
        shape: v.shape(),
        dims: v.dims(),
        values: numbers,
        mask: v.mask(),
        coords: v.coords(),
    }
}

/// An array of any element type without its values.
pub open spec fn outline(v: AnyArrayView) -> ArrayView<F64> {
    as_numbers(v, Seq::empty())
}

/// The native resampling of an array whose element type is kept, to a plane that is
/// not smaller.
pub open spec fn enlarged<T>(a: ArrayView<T>, g: AreaGridView) -> ArrayView<T> {
    match scale_of(plane_of(a), (g.area.height, g.area.width)) {
        NativeScale::Repeat { y_factor, x_factor } => on_plane(
            repeated_array(a, y_factor, x_factor),
            kept_coordinates(PlaneNames::Area, a.coords),
            g,
        ),
        _ => on_plane(a, a.coords, g),
    }
}

/// Whether `out` is the native resampling of an array of any element type. The element
/// type is kept where no mean is taken; the means are those of its values as numbers of
/// 64 bits.
pub open spec fn is_any_native<M: Fn(Vec<F64>) -> F64>(
    out: AnyArrayView,
    v: AnyArrayView,
    g: AreaGridView,
    mean: M,
) -> bool {
    match scale_of(plane_of(outline(v)), (g.area.height, g.area.width)) {
        NativeScale::Aggregate { y_factor, x_factor } => exists|numbers: Seq<F64>| #[trigger]
            are_numbers(v, numbers) && out is F64 && is_aggregated(
                out->F64_0,
                as_numbers(v, numbers),
                y_factor,
                x_factor,
                mean,
                plane_coordinates(kept_coordinates(PlaneNames::Area, v.coords()), g),
            ),
        _ => out == match v {
            AnyArrayView::F32(a) => AnyArrayView::F32(enlarged(a, g)),
            AnyArrayView::F64(a) => AnyArrayView::F64(enlarged(a, g)),
            AnyArrayView::U8(a) => AnyArrayView::U8(enlarged(a, g)),
            AnyArrayView::U16(a) => AnyArrayView::U16(enlarged(a, g)),
            AnyArrayView::I16(a) => AnyArrayView::I16(enlarged(a, g)),
        },
    }
}

fn enlarge<T: Copy>(source: &DataArray<T>, destination: &AreaGrid) -> (r: Result<DataArray<T>>)
    requires
        plane_error(source@.dims) is None,
        plane_of(source@).0 > 0,
        plane_of(source@).1 > 0,
        scale_error(plane_of(source@), (destination@.area.height, destination@.area.width)) is None,
        !(scale_of(
            plane_of(source@),
            (destination@.area.height, destination@.area.width),
        ) is Aggregate),
    ensures
        match native_error(source@, destination@) {
            Some(e) => fails_with(r, e),
            None => r is Ok && r->Ok_0@ == enlarged(source@, destination@),
        },
{
    let ghost a = source@;
    let ghost g = destination@;
    proof {
        use_type_invariant(source);
        use_type_invariant(destination);
        if native_error(a, g) is None {
            lemma_reaches_plane(a, g);
        }
        lemma_scale_reaches_target(plane_of(a), (g.area.height, g.area.width));
    }
    let shape = match source.shape_yx() {
        Ok(p) => p,
        Err(e) => {
            return Err(e);
        },
    };
    match native_scale(shape, destination.shape()) {
        Ok(NativeScale::Repeat { y_factor, x_factor }) => {
            match repeat_yx_from_parts(source, y_factor, x_factor) {
                Ok(array) => {
                    let r = add_plane_coords(array, destination);
                    assert(r->Ok_0@ =~= enlarged(a, g));
                    r
                },
                Err(e) => Err(e),
            }
        },
        Ok(_) => {
            let r = add_plane_coords(source.copy(), destination);
            assert(r->Ok_0@ =~= enlarged(a, g));
            r
        },
        Err(e) => Err(e),
    }
}

/// The grid with the shape, dimensions, mask and coordinates of an array of any element
/// type and the given numbers.
fn number_grid(source: &AnyDataArray, numbers: Vec<F64>) -> (r: DataGrid)
    requires
        numbers@.len() == size_of_shape(source@.shape()),
    ensures
        r@ == as_numbers(source@, numbers@),
{
    match source {
        AnyDataArray::F32(a) => with_numbers(a, numbers),
        AnyDataArray::F64(a) => with_numbers(a, numbers),
        AnyDataArray::U8(a) => with_numbers(a, numbers),
        AnyDataArray::U16(a) => with_numbers(a, numbers),
        AnyDataArray::I16(a) => with_numbers(a, numbers),
    }
}

fn with_numbers<T: Copy>(source: &DataArray<T>, numbers: Vec<F64>) -> (r: DataGrid)
    requires
        numbers@.len() == size_of_shape(source@.shape),
    ensures
        r@ == (ArrayView {
            shape: source@.shape,
            dims: source@.dims,
            values: numbers@,
            mask: source@.mask,
            coords: source@.coords,
        }),
{
    proof {
        use_type_invariant(source);
    }
    DataArray::with_other_values(source, numbers)
}

/// Resamples an array of any element type.
pub fn native_resample_any_yx<M: Fn(Vec<F64>) -> F64>(
    source_array: &AnyDataArray,
    destination: &AreaGrid,
    mean: &M,
) -> (r: Result<AnyDataArray>)
    requires
        plane_error(source_array@.dims()) is None ==> plane_of(outline(source_array@)).0 > 0
            && plane_of(outline(source_array@)).1 > 0,
        forall|v: Vec<F64>| #[trigger] mean.requires((v,)),
    ensures
        match native_error(outline(source_array@), destination@) {
            Some(e) => fails_with(r, e),
            None => r is Ok && is_any_native(r->Ok_0@, source_array@, destination@, *mean),
        },
{
    proof {
        use_type_invariant(destination);
    }
    let shape = match source_array.shape_yx() {
        Ok(p) => p,
        Err(e) => {
            return Err(e);
        },
    };
    match native_scale(shape, destination.shape()) {
        Ok(NativeScale::Aggregate { y_factor, x_factor }) => {
            let numbers = source_array.numbers();
            assert(are_numbers(source_array@, numbers@));
            let grid = number_grid(source_array, numbers);
            match native_resample_yx_owned(grid, destination, mean) {
                Ok(out) => Ok(AnyDataArray::F64(out)),
                Err(e) => Err(e),
            }
        },
        Ok(_) => match source_array {
            AnyDataArray::F32(a) => match enlarge(a, destination) {
                Ok(out) => Ok(AnyDataArray::F32(out)),
                Err(e) => Err(e),
            },
            AnyDataArray::F64(a) => match enlarge(a, destination) {
                Ok(out) => Ok(AnyDataArray::F64(out)),
                Err(e) => Err(e),
            },
            AnyDataArray::U8(a) => match enlarge(a, destination) {
                Ok(out) => Ok(AnyDataArray::U8(out)),
                Err(e) => Err(e),
            },
            AnyDataArray::U16(a) => match enlarge(a, destination) {
                Ok(out) => Ok(AnyDataArray::U16(out)),
                Err(e) => Err(e),
            },
            AnyDataArray::I16(a) => match enlarge(a, destination) {
                Ok(out) => Ok(AnyDataArray::I16(out)),
                Err(e) => Err(e),
            },
        },
        Err(e) => Err(e),
    }
}

/// Resamples an array of any element type that is not needed any more.
pub fn native_resample_any_yx_owned<M: Fn(Vec<F64>) -> F64>(
    source_array: AnyDataArray,
    destination: &AreaGrid,
    mean: &M,
) -> (r: Result<AnyDataArray>)
    requires
        plane_error(source_array@.dims()) is None ==> plane_of(outline(source_array@)).0 > 0
            && plane_of(outline(source_array@)).1 > 0,
        forall|v: Vec<F64>| #[trigger] mean.requires((v,)),
    ensures
        match native_error(outline(source_array@), destination@) {
            Some(e) => fails_with(r, e),
            None => r is Ok && is_any_native(r->Ok_0@, source_array@, destination@, *mean),
        },
{
    native_resample_any_yx(&source_array, destination, mean)
}

/// Whether a grid is a plane with the dimensions `y` and `x`.
pub open spec fn is_plane<T>(a: ArrayView<T>) -> bool {
    a.dims == seq!["y"@, "x"@] && a.shape.len() == 2
}

/// The pixel of a plane of the given width whose value a repeated pixel has.
pub open spec fn repeat_pixel(offset: int, width: int, y_factor: int, x_factor: int) -> int {
    ((offset / (width * x_factor)) / y_factor) * width + (offset % (width * x_factor)) / x_factor
}

/// The flags of a repeated plane.
pub open spec fn repeated_plane_flags<T>(a: ArrayView<T>, y_factor: usize, x_factor: usize) -> Seq<
    bool,
> {
    Seq::new(
        ((a.shape[0] * y_factor) * (a.shape[1] * x_factor)) as nat,
        |o: int|
            masked_in(
                a.mask,
                repeat_pixel(o, a.shape[1] as int, y_factor as int, x_factor as int),
            ),
    )
}

/// A repeated plane, without coordinates.
pub open spec fn repeated_plane<T>(a: ArrayView<T>, y_factor: usize, x_factor: usize) -> ArrayView<
    T,
> {
    let height = (a.shape[0] * y_factor) as usize;
    let width = (a.shape[1] * x_factor) as usize;
    let n = (height * width) as nat;
    ArrayView {
        shape: seq![height, width],
        dims: seq!["y"@, "x"@],
        values: Seq::new(
            n,
            |o: int|
                a.values[repeat_pixel(o, a.shape[1] as int, y_factor as int, x_factor as int)],
        ),
        mask: mask_of(repeated_plane_flags(a, y_factor, x_factor)),
        coords: Map::empty(),
    }
}

proof fn lemma_repeat_pixel(offset: int, height: int, width: int, y_factor: int, x_factor: int)
    requires
        0 <= offset < (height * y_factor) * (width * x_factor),
        y_factor > 0,
        x_factor > 0,
        width >= 0,
        height >= 0,
    ensures
        width * x_factor > 0,
        width > 0,
        0 <= offset / (width * x_factor) < height * y_factor,
        0 <= (offset / (width * x_factor)) / y_factor < height,
        0 <= (offset % (width * x_factor)) / x_factor < width,
        0 <= repeat_pixel(offset, width, y_factor, x_factor) < height * width,
        0 <= ((offset / (width * x_factor)) / y_factor) * width < height * width,
{
    let w = width * x_factor;
    assert(w > 0) by (nonlinear_arith)
        requires
            0 <= offset < (height * y_factor) * w,
            w == width * x_factor,
            width >= 0,
            x_factor > 0,
    ;
    assert(width > 0) by (nonlinear_arith)
        requires
            width * x_factor > 0,
            width >= 0,
    ;
    let row = offset / w;
    assert(0 <= row < height * y_factor) by (nonlinear_arith)
        requires
            row == offset / w,
            w > 0,
            0 <= offset < (height * y_factor) * w,
    ;
    let y = row / y_factor;
    assert(0 <= y < height) by (nonlinear_arith)
        requires
            y == row / y_factor,
            0 <= row < height * y_factor,
            y_factor > 0,
    ;
    let col = offset % w;
    assert(0 <= col < w) by (nonlinear_arith)
        requires
            col == offset % w,
            w > 0,
    ;
    let x = col / x_factor;
    assert(0 <= x < width) by (nonlinear_arith)
        requires
            x == col / x_factor,
            0 <= col < width * x_factor,
            x_factor > 0,
    ;
    assert(0 <= y * width && y * width + x < height * width && y * width < height * width)
        by (nonlinear_arith)
        requires
            0 <= y < height,
            0 <= x < width,
    ;
}

/// Repeats the pixels of a plane. No coordinates are kept.
pub fn native_repeat_2d(source_grid: &DataGrid, y_factor: usize, x_factor: usize) -> (r: Result<
    DataGrid,
>)
    requires
        is_plane(source_grid@),
        source_grid@.shape[0] * y_factor <= usize::MAX,
        source_grid@.shape[1] * x_factor <= usize::MAX,
        (source_grid@.shape[0] * y_factor) * (source_grid@.shape[1] * x_factor) <= usize::MAX,
    ensures
        y_factor == 0 || x_factor == 0 ==> is_invalid(r, "native repeat factors must be non-zero"@),
        y_factor > 0 && x_factor > 0 ==> r is Ok && r->Ok_0@ == repeated_plane(
            source_grid@,
            y_factor,
            x_factor,
        ),
{
    let ghost a = source_grid@;
    proof {
        use_type_invariant(source_grid);
    }
    match validate_repeat_factors(y_factor, x_factor) {
        Ok(()) => {},
        Err(e) => {
            return Err(e);
        },
    }
    let height: usize = source_grid.shape_nd()[0];
    let width: usize = source_grid.shape_nd()[1];
    let out_height: usize = height * y_factor;
    let out_width: usize = width * x_factor;
    let total: usize = out_height * out_width;
    proof {
        assert(a.shape =~= seq![height, width]);
        crate::array::lemma_plane_size(height, width);
    }
    let mut values: Vec<F64> = Vec::new();
    let mut flags: Vec<bool> = Vec::new();
    let mut o: usize = 0;
    while o < total
        invariant
            o <= total,
            a == source_grid@,
            array_ok(a),
            a.shape == seq![height, width],
            a.values.len() == height * width,
            y_factor > 0,
            x_factor > 0,
            out_height == height * y_factor,
            out_width == width * x_factor,
            total == out_height * out_width,
            values@.len() == o,
            flags@.len() == o,
            forall|j: int|
                0 <= j < o ==> values@[j] == a.values[repeat_pixel(
                    j,
                    width as int,
                    y_factor as int,
                    x_factor as int,
                )],
            forall|j: int|
                0 <= j < o ==> flags@[j] == masked_in(
                    a.mask,
                    repeat_pixel(j, width as int, y_factor as int, x_factor as int),
                ),
        decreases total - o,
    {
        proof {
            lemma_repeat_pixel(
                o as int,
                height as int,
                width as int,
                y_factor as int,
                x_factor as int,
            );
        }
        let y: usize = (o / out_width) / y_factor;
        let x: usize = (o % out_width) / x_factor;
        let at: usize = y * width + x;
        values.push(source_grid.values()[at]);
        let masked = match source_grid.is_masked(at) {
            Some(m) => m,
            None => false,
        };
        flags.push(masked);
        o = o + 1;
    }
    let ghost want = repeated_plane(a, y_factor, x_factor);
    proof {
        assert(values@ =~= want.values);
        assert(flags@ =~= repeated_plane_flags(a, y_factor, x_factor));
    }
    let r = crate::assemble::finish_grid(out_height, out_width, values, flags);
    assert(r->Ok_0@ =~= want);
    r
}

/// Repeats the pixels of a plane that is not needed any more.
pub fn native_repeat_2d_owned(source_grid: DataGrid, y_factor: usize, x_factor: usize) -> (r: Result<
    DataGrid,
>)
    requires
        is_plane(source_grid@),
        source_grid@.shape[0] * y_factor <= usize::MAX,
        source_grid@.shape[1] * x_factor <= usize::MAX,
        (source_grid@.shape[0] * y_factor) * (source_grid@.shape[1] * x_factor) <= usize::MAX,
    ensures
        y_factor == 0 || x_factor == 0 ==> is_invalid(r, "native repeat factors must be non-zero"@),
        y_factor > 0 && x_factor > 0 ==> r is Ok && r->Ok_0@ == repeated_plane(
            source_grid@,
            y_factor,
            x_factor,
        ),
{
    native_repeat_2d(&source_grid, y_factor, x_factor)
}

/// The pixel at `(dy, dx)` in the block of the target pixel `(y, x)`.
pub open spec fn block_pixel(
    width: int,
    y_factor: int,
    x_factor: int,
    y: int,
    x: int,
    dy: int,
    dx: int,
) -> int {
    (y * y_factor + dy) * width + (x * x_factor + dx)
}

/// The values of the first `n` pixels of the block of the target pixel `(y, x)`, row by
/// row, without those that have none.
pub open spec fn plane_block(
    a: ArrayView<F64>,
    y_factor: usize,
    x_factor: usize,
    y: nat,
    x: nat,
    n: nat,
) -> Seq<F64>
    decreases n,
{
    if n == 0 {
        Seq::empty()
    } else {
        let t = n - 1;
        let at = block_pixel(
            a.shape[1] as int,
            y_factor as int,
            x_factor as int,
            y as int,
            x as int,
            t / x_factor as int,
            t % x_factor as int,
        );
        let before = plane_block(a, y_factor, x_factor, y, x, t as nat);
        if contributes(a, at as nat) {
            before.push(a.values[at])
        } else {
            before
        }
    }
}

/// The block of the target pixel with the number `offset` in a plane of width
/// `out_width`.
pub open spec fn plane_block_of(
    a: ArrayView<F64>,
    y_factor: usize,
    x_factor: usize,
    out_width: int,
    offset: int,
) -> Seq<F64> {
    plane_block(
        a,
        y_factor,
        x_factor,
        (offset / out_width) as nat,
        (offset % out_width) as nat,
        (y_factor * x_factor) as nat,
    )
}

/// Whether `out` is the aggregated plane, without coordinates.
pub open spec fn is_aggregated_plane<M: Fn(Vec<F64>) -> F64>(
    out: ArrayView<F64>,
    a: ArrayView<F64>,
    y_factor: usize,
    x_factor: usize,
    mean: M,
) -> bool {
    let height = (a.shape[0] / y_factor) as usize;
    let width = (a.shape[1] / x_factor) as usize;
    let block = |o: int| plane_block_of(a, y_factor, x_factor, width as int, o);
    &&& out.shape == seq![height, width]
    &&& out.dims == seq!["y"@, "x"@]
    &&& out.coords == Map::<Seq<char>, CoordinateView>::empty()
    &&& out.values.len() == height * width
    &&& out.mask == mask_of(Seq::new((height * width) as nat, |o: int| block(o).len() == 0))
    &&& forall|o: int|
        0 <= o < out.values.len() ==> if block(o).len() == 0 {
            #[trigger] out.values[o] == F64 { bits: NAN_BITS_64 }
        } else {
            mean_gives(mean, block(o), out.values[o])
        }
}

proof fn lemma_block_pixel(
    height: int,
    width: int,
    y_factor: int,
    x_factor: int,
    y: int,
    x: int,
    dy: int,
    dx: int,
)
    requires
        y_factor > 0,
        x_factor > 0,
        height % y_factor == 0,
        width % x_factor == 0,
        height >= 0,
        width >= 0,
        0 <= y < height / y_factor,
        0 <= x < width / x_factor,
        0 <= dy < y_factor,
        0 <= dx < x_factor,
    ensures
        0 <= y * y_factor,
        0 <= x * x_factor,
        0 <= y * y_factor + dy < height,
        0 <= x * x_factor + dx < width,
        0 <= (y * y_factor + dy) * width < height * width,
        0 <= block_pixel(width, y_factor, x_factor, y, x, dy, dx) < height * width,
{
    lemma_exact_quotient(height as nat, y_factor as nat);
    lemma_exact_quotient(width as nat, x_factor as nat);
    lemma_inside_block(y as nat, dy as nat, y_factor as nat, (height / y_factor) as nat);
    lemma_inside_block(x as nat, dx as nat, x_factor as nat, (width / x_factor) as nat);
    assert(0 <= y * y_factor && 0 <= x * x_factor) by (nonlinear_arith)
        requires
            0 <= y,
            0 <= x,
            y_factor > 0,
            x_factor > 0,
    ;
    let p = y * y_factor + dy;
    let q = x * x_factor + dx;
    assert(0 <= p * width && p * width + q < height * width && p * width < height * width)
        by (nonlinear_arith)
        requires
            0 <= p < height,
            0 <= q < width,
    ;
}

/// The values of the block of a target pixel.
fn aggregate_block(
    source: &DataGrid,
    width: usize,
    out_y: usize,
    out_x: usize,
    y_factor: usize,
    x_factor: usize,
) -> (r: Vec<F64>)
    requires
        is_plane(source@),
        width == source@.shape[1],
        y_factor > 0,
        x_factor > 0,
        source@.shape[0] % y_factor == 0,
        source@.shape[1] % x_factor == 0,
        out_y < source@.shape[0] / y_factor,
        out_x < source@.shape[1] / x_factor,
    ensures
        r@ == plane_block(
            source@,
            y_factor,
            x_factor,
            out_y as nat,
            out_x as nat,
            (y_factor * x_factor) as nat,
        ),
{
    let ghost a = source@;
    let ghost height = a.shape[0];
    proof {
        use_type_invariant(source);
        assert(a.shape =~= seq![height, width]);
        crate::array::lemma_plane_size(height, width);
        assert(0 * x_factor == 0) by (nonlinear_arith);
    }
    let mut out: Vec<F64> = Vec::new();
    let mut dy: usize = 0;
    while dy < y_factor
        invariant
            dy <= y_factor,
            a == source@,
            array_ok(a),
            a.shape == seq![height, width],
            a.values.len() == height * width,
            y_factor > 0,
            x_factor > 0,
            height % y_factor == 0,
            width % x_factor == 0,
            out_y < height / y_factor,
            out_x < width / x_factor,
            out@ == plane_block(
                a,
                y_factor,
                x_factor,
                out_y as nat,
                out_x as nat,
                (dy * x_factor) as nat,
            ),
        decreases y_factor - dy,
    {
        let mut dx: usize = 0;
        assert(0 <= dy * x_factor) by (nonlinear_arith);
        while dx < x_factor
            invariant
                dx <= x_factor,
                dy < y_factor,
                a == source@,
                array_ok(a),
                a.shape == seq![height, width],
                a.values.len() == height * width,
                y_factor > 0,
                x_factor > 0,
                height % y_factor == 0,
                width % x_factor == 0,
                out_y < height / y_factor,
                out_x < width / x_factor,
                0 <= dy * x_factor,
                out@ == plane_block(
                    a,
                    y_factor,
                    x_factor,
                    out_y as nat,
                    out_x as nat,
                    (dy * x_factor + dx) as nat,
                ),
            decreases x_factor - dx,
        {
            proof {
                lemma_row_position(dy as nat, dx as nat, x_factor as nat);
                lemma_block_pixel(
                    height as int,
                    width as int,
                    y_factor as int,
                    x_factor as int,
                    out_y as int,
                    out_x as int,
                    dy as int,
                    dx as int,
                );
            }
            let src_y: usize = out_y * y_factor + dy;
            let src_x: usize = out_x * x_factor + dx;
            let at: usize = src_y * width + src_x;
            let masked = match source.is_masked(at) {
                Some(m) => m,
                None => false,
            };
            if !masked {
                let value = source.values()[at];
                if value.is_finite() {
                    out.push(value);
                }
            }
            dx = dx + 1;
        }
        proof {
            assert(dy * x_factor + x_factor == (dy + 1) * x_factor) by (nonlinear_arith);
        }
        dy = dy + 1;
    }
    out
}

/// Replaces each block of pixels of a plane by the mean of its values. No coordinates
/// are kept.
pub fn native_aggregate_mean_2d<M: Fn(Vec<F64>) -> F64>(
    source_grid: &DataGrid,
    y_factor: usize,
    x_factor: usize,
    mean: &M,
) -> (r: Result<DataGrid>)
    requires
        is_plane(source_grid@),
        forall|v: Vec<F64>| #[trigger] mean.requires((v,)),
    ensures
        y_factor == 0 || x_factor == 0 ==> is_invalid(r, "native repeat factors must be non-zero"@),
        y_factor > 0 && x_factor > 0 && (source_grid@.shape[0] % y_factor != 0
            || source_grid@.shape[1] % x_factor != 0) ==> is_invalid(
            r,
            "native aggregation factors must evenly divide the source shape"@,
        ),
        y_factor > 0 && x_factor > 0 && source_grid@.shape[0] % y_factor == 0
            && source_grid@.shape[1] % x_factor == 0 ==> r is Ok && is_aggregated_plane(
            r->Ok_0@,
            source_grid@,
            y_factor,
            x_factor,
            *mean,
        ),
{
    let ghost a = source_grid@;
    let height: usize = source_grid.shape_nd()[0];
    let width: usize = source_grid.shape_nd()[1];
    match validate_aggregate_factors(height, width, y_factor, x_factor) {
        Ok(()) => {},
        Err(e) => {
            return Err(e);
        },
    }
    let out_height: usize = height / y_factor;
    let out_width: usize = width / x_factor;
    proof {
        use_type_invariant(source_grid);
        assert(a.shape =~= seq![height, width]);
        crate::array::lemma_plane_size(height, width);
        assert(out_height <= height && out_width <= width) by (nonlinear_arith)
            requires
                out_height == height / y_factor,
                out_width == width / x_factor,
                y_factor > 0,
                x_factor > 0,
        ;
        assert(out_height * out_width <= height * width) by (nonlinear_arith)
            requires
                out_height <= height,
                out_width <= width,
        ;
    }
    let total: usize = out_height * out_width;
    let ghost block = |o: int| plane_block_of(a, y_factor, x_factor, out_width as int, o);
    let mut values: Vec<F64> = Vec::new();
    let mut flags: Vec<bool> = Vec::new();
    let mut o: usize = 0;
    while o < total
        invariant
            o <= total,
            a == source_grid@,
            is_plane(a),
            a.shape == seq![height, width],
            y_factor > 0,
            x_factor > 0,
            height % y_factor == 0,
            width % x_factor == 0,
            out_height == height / y_factor,
            out_width == width / x_factor,
            total == out_height * out_width,
            forall|v: Vec<F64>| #[trigger] mean.requires((v,)),
            block == (|o: int| plane_block_of(a, y_factor, x_factor, out_width as int, o)),
            values@.len() == o,
            flags@.len() == o,
            forall|j: int| 0 <= j < o ==> #[trigger] flags@[j] == (block(j).len() == 0),
            forall|j: int|
                0 <= j < o ==> if block(j).len() == 0 {
                    #[trigger] values@[j] == F64 { bits: NAN_BITS_64 }
                } else {
                    mean_gives(*mean, block(j), values@[j])
                },
        decreases total - o,
    {
        proof {
            assert(out_width > 0 && o / out_width < out_height && o % out_width < out_width)
                by (nonlinear_arith)
                requires
                    o < total,
                    total == out_height * out_width,
            ;
        }
        let members = aggregate_block(
            source_grid,
            width,
            o / out_width,
            o % out_width,
            y_factor,
            x_factor,
        );
        assert(members@ == block(o as int));
        if members.len() == 0 {
            values.push(F64 { bits: NAN_BITS_64 });
            flags.push(true);
        } else {
            let m = mean(members);
            assert(mean_gives(*mean, block(o as int), m));
            values.push(m);
            flags.push(false);
        }
        o = o + 1;
    }
    assert(flags@ =~= Seq::new(total as nat, |o: int| block(o).len() == 0));
    crate::assemble::finish_grid(out_height, out_width, values, flags)
}

/// Replaces each block of pixels of a plane that is not needed any more by the mean of
/// its values.
pub fn native_aggregate_mean_2d_owned<M: Fn(Vec<F64>) -> F64>(
    source_grid: DataGrid,
    y_factor: usize,
    x_factor: usize,
    mean: &M,
) -> (r: Result<DataGrid>)
    requires
        is_plane(source_grid@),
        forall|v: Vec<F64>| #[trigger] mean.requires((v,)),
    ensures
        y_factor == 0 || x_factor == 0 ==> is_invalid(r, "native repeat factors must be non-zero"@),
        y_factor > 0 && x_factor > 0 && (source_grid@.shape[0] % y_factor != 0
            || source_grid@.shape[1] % x_factor != 0) ==> is_invalid(
            r,
            "native aggregation factors must evenly divide the source shape"@,
        ),
        y_factor > 0 && x_factor > 0 && source_grid@.shape[0] % y_factor == 0
            && source_grid@.shape[1] % x_factor == 0 ==> r is Ok && is_aggregated_plane(
            r->Ok_0@,
            source_grid@,
            y_factor,
            x_factor,
            *mean,
        ),
{
    native_aggregate_mean_2d(&source_grid, y_factor, x_factor, mean)
}

/// Whether `out` is the native resampling of a plane. `same` are the coordinates that a
/// plane of the size of the target keeps.
pub open spec fn is_native_plane<M: Fn(Vec<F64>) -> F64>(
    out: ArrayView<F64>,
    a: ArrayView<F64>,
    g: AreaGridView,
    mean: M,
    same: Map<Seq<char>, CoordinateView>,
) -> bool {
    let kept = kept_coordinates(PlaneNames::Area, a.coords);
    match scale_of((a.shape[0], a.shape[1]), (g.area.height, g.area.width)) {
        NativeScale::Identity => out == on_plane(a, same, g),
        NativeScale::Repeat { y_factor, x_factor } => out == on_plane(
            repeated_plane(a, y_factor, x_factor),
            kept,
            g,
        ),
        NativeScale::Aggregate { y_factor, x_factor } => {
            &&& out.coords == plane_coordinates(kept, g)
            &&& is_aggregated_plane(
                ArrayView { coords: Map::empty(), ..out },
                a,
                y_factor,
                x_factor,
                mean,
            )
        },
    }
}

/// Resamples a plane to another one whose size is a whole multiple or a whole part of
/// its own. A plane that has the size already keeps its coordinates.
pub fn native_resample_2d<M: Fn(Vec<F64>) -> F64>(
    source_grid: &DataGrid,
    destination: &AreaGrid,
    mean: &M,
) -> (r: Result<DataGrid>)
    requires
        is_plane(source_grid@),
        source_grid@.shape[0] > 0,
        source_grid@.shape[1] > 0,
        forall|v: Vec<F64>| #[trigger] mean.requires((v,)),
    ensures
        match scale_error(
            (source_grid@.shape[0], source_grid@.shape[1]),
            (destination@.area.height, destination@.area.width),
        ) {
            Some(e) => fails_with(r, e),
            None => r is Ok && is_native_plane(
                r->Ok_0@,
                source_grid@,
                destination@,
                *mean,
                source_grid@.coords,
            ),
        },
{
    native_resample_plane(source_grid, destination, mean, true)
}

/// Resamples a plane that is not needed any more. Where it has the size of the target
/// already, only the coordinates outside the plane are kept.
pub fn native_resample_2d_owned<M: Fn(Vec<F64>) -> F64>(
    source_grid: DataGrid,
    destination: &AreaGrid,
    mean: &M,
) -> (r: Result<DataGrid>)
    requires
        is_plane(source_grid@),
        source_grid@.shape[0] > 0,
        source_grid@.shape[1] > 0,
        forall|v: Vec<F64>| #[trigger] mean.requires((v,)),
    ensures
        match scale_error(
            (source_grid@.shape[0], source_grid@.shape[1]),
            (destination@.area.height, destination@.area.width),
        ) {
            Some(e) => fails_with(r, e),
            None => r is Ok && is_native_plane(
                r->Ok_0@,
                source_grid@,
                destination@,
                *mean,
                kept_coordinates(PlaneNames::Area, source_grid@.coords),
            ),
        },
{
    native_resample_plane(&source_grid, destination, mean, false)
}

/// A plane with the kept coordinates of its source and those of the target.
fn finish_plane(array: DataGrid, source: &DataGrid, destination: &AreaGrid) -> (r: Result<DataGrid>)
    requires
        is_plane(source@),
        is_plane(array@),
        array@.coords == Map::<Seq<char>, CoordinateView>::empty(),
        array@.shape == seq![destination@.area.height, destination@.area.width],
    ensures
        r is Ok,
        r->Ok_0@ == on_plane(
            array@,
            kept_coordinates(PlaneNames::Area, source@.coords),
            destination@,
        ),
{
    let ghost a = source@;
    let ghost b = array@;
    proof {
        use_type_invariant(source);
        lemma_y_is_not_x();
        assert(b.dims[0] == "y"@ && b.dims[1] == "x"@);
        lemma_position_in(b.dims, "y"@);
        lemma_position_in(b.dims, "x"@);
        assert(b.dims.contains("y"@) && b.dims.contains("x"@));
        assert forall|k: Seq<char>| #[trigger]
            a.coords.dom().contains(k) && keeps_coordinate(
                PlaneNames::Area,
                k,
                a.coords[k].dims,
            ) implies fits(a.coords[k], b.dims, b.shape) by {
            lemma_kept_fits_resized(PlaneNames::Area, k, a.coords[k], a.dims, a.shape, b.shape);
        }
        assert(Map::<Seq<char>, CoordinateView>::empty().union_prefer_right(
            kept_coordinates(PlaneNames::Area, a.coords),
        ) =~= kept_coordinates(PlaneNames::Area, a.coords));
    }
    match add_preserved_coords(array, PlaneNames::Area, source.coords()) {
        Ok(kept) => {
            let r = add_plane_coords(kept, destination);
            assert(r->Ok_0@ =~= on_plane(
                b,
                kept_coordinates(PlaneNames::Area, a.coords),
                destination@,
            ));
            r
        },
        Err(e) => Err(e),
    }
}

fn native_resample_plane<M: Fn(Vec<F64>) -> F64>(
    source_grid: &DataGrid,
    destination: &AreaGrid,
    mean: &M,
    keep_all: bool,
) -> (r: Result<DataGrid>)
    requires
        is_plane(source_grid@),
        source_grid@.shape[0] > 0,
        source_grid@.shape[1] > 0,
        forall|v: Vec<F64>| #[trigger] mean.requires((v,)),
    ensures
        match scale_error(
            (source_grid@.shape[0], source_grid@.shape[1]),
            (destination@.area.height, destination@.area.width),
        ) {
            Some(e) => fails_with(r, e),
            None => r is Ok && is_native_plane(
                r->Ok_0@,
                source_grid@,
                destination@,
                *mean,
                if keep_all {
                    source_grid@.coords
                } else {
                    kept_coordinates(PlaneNames::Area, source_grid@.coords)
                },
            ),
        },
{
    let ghost a = source_grid@;
    let ghost g = destination@;
    let shape = (source_grid.shape_nd()[0], source_grid.shape_nd()[1]);
    proof {
        use_type_invariant(source_grid);
        use_type_invariant(destination);
    }
    let scale = match native_scale(shape, destination.shape()) {
        Ok(v) => v,
        Err(e) => {
            return Err(e);
        },
    };
    proof {
        lemma_scale_reaches_target(shape, (g.area.height, g.area.width));
        lemma_y_is_not_x();
        assert(a.dims[0] == "y"@ && a.dims[1] == "x"@);
        lemma_position_in(a.dims, "y"@);
        lemma_position_in(a.dims, "x"@);
        assert(a.dims.contains("y"@) && a.dims.contains("x"@));
        assert(a.shape =~= seq![shape.0, shape.1]);
    }
    match scale {
        NativeScale::Identity => {
            if keep_all {
                let r = add_plane_coords(source_grid.copy(), destination);
                assert(r->Ok_0@ =~= on_plane(a, a.coords, g));
                r
            } else {
                let bare = without_coordinates(source_grid);
                let r = finish_plane(bare, source_grid, destination);
                assert(r->Ok_0@ =~= on_plane(a, kept_coordinates(PlaneNames::Area, a.coords), g));
                r
            }
        },
        NativeScale::Repeat { y_factor, x_factor } => {
            match native_repeat_2d(source_grid, y_factor, x_factor) {
                Ok(array) => finish_plane(array, source_grid, destination),
                Err(e) => Err(e),
            }
        },
        NativeScale::Aggregate { y_factor, x_factor } => {
            match native_aggregate_mean_2d(source_grid, y_factor, x_factor, mean) {
                Ok(array) => {
                    let ghost b = array@;
                    let r = finish_plane(array, source_grid, destination);
                    assert((ArrayView { coords: Map::empty(), ..r->Ok_0@ }) =~= b);
                    r
                },
                Err(e) => Err(e),
            }
        },
    }
}

/// Repetition by one changes no element.
pub proof fn lemma_repeat_by_one<T>(a: ArrayView<T>, offset: nat)
    requires
        array_ok(a),
        plane_error(a.dims) is None,
        no_zero(a.shape),
        offset < a.values.len(),
    ensures
        repeat_error(a, 1, 1) is None,
        repeated_array(a, 1, 1).shape == a.shape,
        repeat_source(a, 1, 1, offset) == offset,
        repeated_array(a, 1, 1).values == a.values,
{
    lemma_plane_axes(a);
    assert(plane_of(a).0 * 1 == plane_of(a).0 && plane_of(a).1 * 1 == plane_of(a).1);
    assert(repeated_shape(a, 1, 1) =~= a.shape);
    lemma_no_overflow(a.shape);
    lemma_first_zero_of_no_zero(a.shape);
    assert forall|o: nat| o < a.values.len() implies repeat_source(a, 1, 1, o) == o by {
        lemma_ravel_unravel(a.shape, o);
        let idx = unravel(a.shape, o);
        assert(idx.update(y_axis_of(a), idx[y_axis_of(a)] / 1).update(
            x_axis_of(a),
            idx[x_axis_of(a)] / 1,
        ) =~= idx);
    }
    assert(repeated_array(a, 1, 1).values =~= a.values);
}

/// Aggregation undoes repetition: every element of the block that a repeated array
/// has for a target element is a copy of the source element at the same place.
pub proof fn lemma_blocks_of_repeated<T>(
    a: ArrayView<T>,
    y_factor: usize,
    x_factor: usize,
    offset: nat,
    dy: nat,
    dx: nat,
)
    requires
        array_ok(a),
        plane_error(a.dims) is None,
        y_factor > 0,
        x_factor > 0,
        repeat_error(a, y_factor, x_factor) is None,
        offset < a.values.len(),
        dy < y_factor,
        dx < x_factor,
    ensures
        aggregated_shape(repeated_array(a, y_factor, x_factor), y_factor, x_factor) == a.shape,
        repeated_array(a, y_factor, x_factor).values[block_source(
            repeated_array(a, y_factor, x_factor),
            y_factor,
            x_factor,
            offset,
            dy,
            dx,
        ) as int] == a.values[offset as int],
{
    lemma_plane_axes(a);
    let b = repeated_array(a, y_factor, x_factor);
    let y = y_axis_of(a);
    let x = x_axis_of(a);
    let h = a.shape[y] as nat;
    let w = a.shape[x] as nat;
    let yf = y_factor as nat;
    let xf = x_factor as nat;
    assert(b.shape[y] == h * yf && b.shape[x] == w * xf);
    assert((h * yf) / yf == h) by (nonlinear_arith)
        requires
            yf > 0,
    ;
    assert((w * xf) / xf == w) by (nonlinear_arith)
        requires
            xf > 0,
    ;
    assert(aggregated_shape(b, y_factor, x_factor) =~= a.shape);
    assert forall|k: int| 0 <= k < a.shape.len() implies a.shape[k] > 0 by {
        assert(b.shape[k] > 0);
        if k == y {
            assert(h > 0) by (nonlinear_arith)
                requires
                    h * yf > 0,
            ;
        } else if k == x {
            assert(w > 0) by (nonlinear_arith)
                requires
                    w * xf > 0,
            ;
        }
    }
    lemma_ravel_unravel(a.shape, offset);
    let idx = unravel(a.shape, offset);
    let at = block_indices(b, y_factor, x_factor, offset, dy, dx);
    lemma_inside_block(idx[y], dy, yf, h);
    lemma_inside_block(idx[x], dx, xf, w);
    assert forall|k: int| 0 <= k < b.shape.len() implies at[k] < b.shape[k] by {
        if k != y && k != x {
            assert(b.shape[k] == a.shape[k]);
        }
    }
    lemma_unravel_ravel(b.shape, at);
    lemma_ravel_bounded(b.shape, at);
    lemma_fundamental_div_mod_converse((idx[y] * yf + dy) as int, yf as int, idx[y] as int, dy as int);
    lemma_fundamental_div_mod_converse((idx[x] * xf + dx) as int, xf as int, idx[x] as int, dx as int);
    assert(at.update(y, at[y] / yf).update(x, at[x] / xf) =~= idx);
}

/// A shape without zeros has no first zero.
proof fn lemma_no_first_zero(shape: Seq<usize>)
    requires
        no_zero(shape),
    ensures
        first_zero(shape) == shape.len(),
    decreases shape.len(),
{
    if shape.len() > 0 {
        assert(shape[0] != 0);
        assert forall|k: int| 0 <= k < shape.drop_first().len() implies #[trigger] shape.drop_first()[k]
            != 0 by {
            assert(shape[k + 1] != 0);
        }
        lemma_no_first_zero(shape.drop_first());
    }
}

/// What repetition gives can be aggregated by the same factors, to the shape it had.
proof fn lemma_repeated_can_be_aggregated<T>(a: ArrayView<T>, y_factor: usize, x_factor: usize)
    requires
        array_ok(a),
        plane_error(a.dims) is None,
        y_factor > 0,
        x_factor > 0,
        repeat_error(a, y_factor, x_factor) is None,
    ensures
        aggregate_error(repeated_array(a, y_factor, x_factor), y_factor, x_factor) is None,
        aggregated_shape(repeated_array(a, y_factor, x_factor), y_factor, x_factor) == a.shape,
{
    lemma_plane_axes(a);
    let b = repeated_array(a, y_factor, x_factor);
    let y = y_axis_of(a);
    let x = x_axis_of(a);
    let h = a.shape[y] as nat;
    let w = a.shape[x] as nat;
    let yf = y_factor as nat;
    let xf = x_factor as nat;
    assert(b.shape[y] == h * yf && b.shape[x] == w * xf);
    assert((h * yf) / yf == h && (h * yf) % yf == 0) by (nonlinear_arith)
        requires
            yf > 0,
    ;
    assert((w * xf) / xf == w && (w * xf) % xf == 0) by (nonlinear_arith)
        requires
            xf > 0,
    ;
    assert(aggregated_shape(b, y_factor, x_factor) =~= a.shape);
    assert forall|k: int| 0 <= k < a.shape.len() implies #[trigger] a.shape[k] != 0 by {
        assert(b.shape[k] != 0);
        if k == y {
            assert(h > 0) by (nonlinear_arith)
                requires
                    h * yf > 0,
            ;
        } else if k == x {
            assert(w > 0) by (nonlinear_arith)
                requires
                    w * xf > 0,
            ;
        }
    }
    lemma_no_first_zero(a.shape);
    assert(a.shape.take(a.shape.len() as int) =~= a.shape);
}

/// The block of an element of a repeated array without missing values holds its value only.
proof fn lemma_block_of_copies(
    a: ArrayView<F64>,
    y_factor: usize,
    x_factor: usize,
    offset: nat,
    n: nat,
)
    requires
        array_ok(a),
        plane_error(a.dims) is None,
        y_factor > 0,
        x_factor > 0,
        repeat_error(a, y_factor, x_factor) is None,
        a.mask is None,
        offset < a.values.len(),
        a.values[offset as int].finite(),
        n <= y_factor * x_factor,
    ensures
        block_values(repeated_array(a, y_factor, x_factor), y_factor, x_factor, offset, n)
            == copies(a.values[offset as int], n),
    decreases n,
{
    let b = repeated_array(a, y_factor, x_factor);
    if n > 0 {
        let t = (n - 1) as nat;
        lemma_block_of_copies(a, y_factor, x_factor, offset, t);
        let dy = (t as int / x_factor as int) as nat;
        let dx = (t as int % x_factor as int) as nat;
        let yf = y_factor as int;
        let xf = x_factor as int;
        assert(dy < yf) by (nonlinear_arith)
            requires
                dy == t as int / xf,
                t < yf * xf,
                xf > 0,
        ;
        lemma_blocks_of_repeated(a, y_factor, x_factor, offset, dy, dx);
        assert(b.mask is None) by {
            assert(!any_set(repeated_flags(a, y_factor, x_factor)));
        }
        assert(block_values(b, y_factor, x_factor, offset, n) =~= copies(
            a.values[offset as int],
            n,
        ));
    } else {
        assert(copies(a.values[offset as int], 0) =~= Seq::<F64>::empty());
    }
}

/// A list of copies of a number.
pub open spec fn copies(v: F64, n: nat) -> Seq<F64> {
    Seq::new(n, |i: int| v)
}

/// Aggregation undoes repetition: where the mean of copies of each value is that value, the
/// means of the blocks of a repeated plane are the values it was made of. Rounding can make
/// the mean of copies another number, which is why the copies are spoken of.
pub proof fn lemma_mean_of_repeated<M: Fn(Vec<F64>) -> F64>(
    repeated: Result<DataGrid>,
    r: Result<DataGrid>,
    a: ArrayView<F64>,
    y_factor: usize,
    x_factor: usize,
    mean: M,
)
    requires
        array_ok(a),
        plane_error(a.dims) is None,
        a.mask is None,
        forall|i: int| 0 <= i < a.values.len() ==> (#[trigger] a.values[i]).finite(),
        y_factor > 0,
        x_factor > 0,
        repeat_outcome(repeated, a, y_factor, x_factor),
        repeated is Ok,
        aggregate_outcome(r, repeated->Ok_0@, y_factor, x_factor, mean),
        forall|i: int, out: F64|
            0 <= i < a.values.len() && #[trigger] mean_gives(
                mean,
                copies(a.values[i], (y_factor * x_factor) as nat),
                out,
            ) ==> out.same_number(a.values[i]),
    ensures
        r is Ok,
        r->Ok_0@.shape == a.shape,
        r->Ok_0@.dims == a.dims,
        r->Ok_0@.mask is None,
        r->Ok_0@.values.len() == a.values.len(),
        forall|i: int|
            0 <= i < a.values.len() ==> (#[trigger] r->Ok_0@.values[i]).same_number(a.values[i]),
{
    let b = repeated_array(a, y_factor, x_factor);
    let n = (y_factor * x_factor) as nat;
    lemma_repeated_can_be_aggregated(a, y_factor, x_factor);
    assert(n > 0) by (nonlinear_arith)
        requires
            n == y_factor * x_factor,
            y_factor > 0,
            x_factor > 0,
    ;
    let out = r->Ok_0@;
    assert forall|i: int| 0 <= i < a.values.len() implies block_of(
        b,
        y_factor,
        x_factor,
        i as nat,
    ) == copies(a.values[i], n) && #[trigger] out.values[i].same_number(a.values[i]) by {
        lemma_block_of_copies(a, y_factor, x_factor, i as nat, n);
        assert(mean_gives(mean, copies(a.values[i], n), out.values[i]));
    }
    assert(!any_set(aggregated_flags(b, y_factor, x_factor))) by {
        assert forall|o: int| 0 <= o < a.values.len() implies !(
        #[trigger] aggregated_flags(b, y_factor, x_factor)[o]) by {
            lemma_block_of_copies(a, y_factor, x_factor, o as nat, n);
        }
    }
}

/// Whether, along one axis, pixel `inner` of `inner_count` lies in pixel `outer` of
/// `outer_count` where both planes show the same extent.
pub open spec fn lies_within(inner: int, inner_count: int, outer: int, outer_count: int) -> bool {
    outer * inner_count <= inner * outer_count && inner * outer_count < (outer + 1) * inner_count
}

/// Whether the element with the indices `inner` lies in the element with the indices `outer`
/// of an array with the same dimensions that shows the same extent.
pub open spec fn encloses(
    dims: Seq<Seq<char>>,
    outer_shape: Seq<usize>,
    outer: Seq<nat>,
    inner_shape: Seq<usize>,
    inner: Seq<nat>,
) -> bool {
    &&& outer_shape.len() == dims.len()
    &&& inner_shape.len() == dims.len()
    &&& in_bounds(outer_shape, outer)
    &&& in_bounds(inner_shape, inner)
    &&& forall|k: int|
        0 <= k < dims.len() ==> if #[trigger] dims[k] == "y"@ || dims[k] == "x"@ {
            lies_within(
                inner[k] as int,
                inner_shape[k] as int,
                outer[k] as int,
                outer_shape[k] as int,
            )
        } else {
            inner[k] == outer[k] && inner_shape[k] == outer_shape[k]
        }
}

proof fn lemma_quotient_encloses(i: int, n: int, f: int)
    requires
        0 <= i,
        n > 0,
        f > 0,
    ensures
        lies_within(i, n * f, i / f, n),
{
    let q = i / f;
    assert(q * f <= i < (q + 1) * f) by (nonlinear_arith)
        requires
            q == i / f,
            f > 0,
    ;
    assert(q * (n * f) <= i * n && i * n < (q + 1) * (n * f)) by (nonlinear_arith)
        requires
            q * f <= i < (q + 1) * f,
            n > 0,
    ;
}

proof fn lemma_within_block(i: int, o: int, n: int, f: int)
    requires
        n > 0,
        f > 0,
    ensures
        lies_within(i, n * f, o, n) <==> o * f <= i < o * f + f,
{
    assert((o * (n * f) <= i * n) == (o * f <= i)) by (nonlinear_arith)
        requires
            n > 0,
    ;
    assert((i * n < (o + 1) * (n * f)) == (i < o * f + f)) by (nonlinear_arith)
        requires
            n > 0,
    ;
}

proof fn lemma_same_pixel(i: int, n: int)
    requires
        n > 0,
    ensures
        lies_within(i, n, i, n),
{
    assert(i * n < (i + 1) * n) by (nonlinear_arith)
        requires
            n > 0,
    ;
}

proof fn lemma_flag_kept(flags: Seq<bool>, o: int)
    requires
        0 <= o < flags.len(),
    ensures
        (mask_of(flags) is Some && mask_of(flags)->Some_0[o]) == flags[o],
{
    if flags[o] {
        assert(any_set(flags));
    }
}

/// Each element of a repeated array shows what the source element shows in which it lies.
pub proof fn lemma_repeated_shows_source<T>(
    a: ArrayView<T>,
    y_factor: usize,
    x_factor: usize,
    idx: Seq<nat>,
) -> (at: Seq<nat>)
    requires
        array_ok(a),
        plane_error(a.dims) is None,
        plane_of(a).0 > 0,
        plane_of(a).1 > 0,
        y_factor > 0,
        x_factor > 0,
        repeat_error(a, y_factor, x_factor) is None,
        in_bounds(repeated_array(a, y_factor, x_factor).shape, idx),
    ensures
        ({
            let out = repeated_array(a, y_factor, x_factor);
            let o = ravel(out.shape, idx) as int;
            let i = ravel(a.shape, at) as int;
            &&& encloses(a.dims, a.shape, at, out.shape, idx)
            &&& 0 <= o < out.values.len()
            &&& out.values[o] == a.values[i]
            &&& (out.mask is Some && out.mask->Some_0[o]) == (a.mask is Some
                && a.mask->Some_0[i])
        }),
{
    lemma_plane_axes(a);
    let out = repeated_array(a, y_factor, x_factor);
    let y = y_axis_of(a);
    let x = x_axis_of(a);
    lemma_unravel_ravel(out.shape, idx);
    lemma_ravel_bounded(out.shape, idx);
    let o = ravel(out.shape, idx);
    lemma_repeat_source_bounded(a, y_factor, x_factor, o);
    let at = idx.update(y, idx[y] / (y_factor as nat)).update(x, idx[x] / (x_factor as nat));
    lemma_quotient_encloses(idx[y] as int, a.shape[y] as int, y_factor as int);
    lemma_quotient_encloses(idx[x] as int, a.shape[x] as int, x_factor as int);
    assert forall|k: int| 0 <= k < a.dims.len() implies if #[trigger] a.dims[k] == "y"@ || a.dims[k]
        == "x"@ {
        lies_within(idx[k] as int, out.shape[k] as int, at[k] as int, a.shape[k] as int)
    } else {
        idx[k] == at[k] && out.shape[k] == a.shape[k]
    } by {
        assert(a.dims[k] == "y"@ ==> k == y);
        assert(a.dims[k] == "x"@ ==> k == x);
    }
    lemma_flag_kept(repeated_flags(a, y_factor, x_factor), o as int);
    at
}

/// A native resampling to a plane that is not smaller: each element shows what the source
/// element shows in which it lies.
pub proof fn lemma_enlarged_shows_source<T>(a: ArrayView<T>, g: AreaGridView, idx: Seq<nat>) -> (at:
    Seq<nat>)
    requires
        array_ok(a),
        crate::area::area_grid_ok(g),
        native_error(a, g) is None,
        0 < size_along(a, "y"@) <= g.area.height,
        0 < size_along(a, "x"@) <= g.area.width,
        in_bounds(enlarged(a, g).shape, idx),
    ensures
        ({
            let out = enlarged(a, g);
            let o = ravel(out.shape, idx) as int;
            let i = ravel(a.shape, at) as int;
            &&& out.dims == a.dims
            &&& size_along(out, "y"@) == g.area.height
            &&& size_along(out, "x"@) == g.area.width
            &&& encloses(a.dims, a.shape, at, out.shape, idx)
            &&& 0 <= o < out.values.len()
            &&& out.values[o] == a.values[i]
            &&& (out.mask is Some && out.mask->Some_0[o]) == (a.mask is Some
                && a.mask->Some_0[i])
        }),
{
    lemma_plane_axes(a);
    lemma_reaches_plane(a, g);
    lemma_scale_reaches_target(plane_of(a), (g.area.height, g.area.width));
    match scale_of(plane_of(a), (g.area.height, g.area.width)) {
        NativeScale::Repeat { y_factor, x_factor } => lemma_repeated_shows_source(
            a,
            y_factor,
            x_factor,
            idx,
        ),
        _ => {
            lemma_ravel_bounded(a.shape, idx);
            assert forall|k: int| 0 <= k < a.shape.len() implies lies_within(
                idx[k] as int,
                a.shape[k] as int,
                idx[k] as int,
                #[trigger] a.shape[k] as int,
            ) by {
                lemma_same_pixel(idx[k] as int, a.shape[k] as int);
            }
            idx
        },
    }
}

/// Whether `list` are the values in a block: those of exactly the elements of the source that
/// lie in the target element `idx` and show a value, row by row. `members` are their indices.
pub open spec fn are_block_values(
    list: Seq<F64>,
    members: Seq<Seq<nat>>,
    a: ArrayView<F64>,
    out_shape: Seq<usize>,
    idx: Seq<nat>,
) -> bool {
    &&& members.len() == list.len()
    &&& forall|j: int|
        0 <= j < members.len() ==> {
            let i = ravel(a.shape, #[trigger] members[j]) as int;
            &&& encloses(a.dims, out_shape, idx, a.shape, members[j])
            &&& has_value(a, i)
            &&& list[j] == a.values[i]
        }
    &&& forall|m: Seq<nat>| #[trigger]
        encloses(a.dims, out_shape, idx, a.shape, m) && has_value(a, ravel(a.shape, m) as int)
            ==> members.contains(m)
    &&& forall|j: int, k: int, p: int, q: int|
        #![trigger members[j][p], members[k][q]]
        0 <= j < k < members.len() && 0 <= p < a.dims.len() && 0 <= q < a.dims.len() && a.dims[p]
            == "y"@ && a.dims[q] == "x"@ ==> members[j][p] < members[k][p] || (members[j][p]
            == members[k][p] && members[j][q] < members[k][q])
}

proof fn lemma_block_steps(
    a: ArrayView<F64>,
    y_factor: usize,
    x_factor: usize,
    offset: nat,
    n: nat,
) -> (steps: Seq<int>)
    requires
        array_ok(a),
        plane_error(a.dims) is None,
        aggregate_error(a, y_factor, x_factor) is None,
        n <= y_factor * x_factor,
    ensures
        selects(
            block_values(a, y_factor, x_factor, offset, n),
            steps,
            n as int,
            |t: int| has_value(a, block_at(a, y_factor, x_factor, offset, t)),
            |t: int| a.values[block_at(a, y_factor, x_factor, offset, t)],
        ),
    decreases n,
{
    let taken = |t: int| has_value(a, block_at(a, y_factor, x_factor, offset, t));
    let value = |t: int| a.values[block_at(a, y_factor, x_factor, offset, t)];
    if n == 0 {
        Seq::empty()
    } else {
        let t = (n - 1) as nat;
        let before = lemma_block_steps(a, y_factor, x_factor, offset, t);
        lemma_selects_next(
            block_values(a, y_factor, x_factor, offset, t),
            before,
            t as int,
            taken,
            value,
        );
        lemma_step_inside(t as int, y_factor as int, x_factor as int);
        lemma_block_bounded(
            a,
            y_factor,
            x_factor,
            offset,
            (t as int / x_factor as int) as nat,
            (t as int % x_factor as int) as nat,
        );
        if taken(t as int) {
            before.push(t as int)
        } else {
            before
        }
    }
}

proof fn lemma_step_inside(t: int, y_factor: int, x_factor: int)
    requires
        0 <= t < y_factor * x_factor,
        y_factor > 0,
        x_factor > 0,
    ensures
        0 <= t / x_factor < y_factor,
        0 <= t % x_factor < x_factor,
        t == (t / x_factor) * x_factor + t % x_factor,
{
    assert(0 <= t / x_factor < y_factor && 0 <= t % x_factor < x_factor && t == (t / x_factor)
        * x_factor + t % x_factor) by (nonlinear_arith)
        requires
            0 <= t < y_factor * x_factor,
            y_factor > 0,
            x_factor > 0,
    ;
}

proof fn lemma_steps_ordered(s: int, t: int, x_factor: int)
    requires
        0 <= s < t,
        x_factor > 0,
    ensures
        s / x_factor < t / x_factor || (s / x_factor == t / x_factor && s % x_factor < t
            % x_factor),
{
    let (p, q) = (s / x_factor, t / x_factor);
    assert(s == p * x_factor + s % x_factor && t == q * x_factor + t % x_factor && 0 <= s
        % x_factor < x_factor && 0 <= t % x_factor < x_factor) by (nonlinear_arith)
        requires
            p == s / x_factor,
            q == t / x_factor,
            x_factor > 0,
    ;
    if p > q {
        assert(p * x_factor >= q * x_factor + x_factor) by (nonlinear_arith)
            requires
                p >= q + 1,
                x_factor > 0,
        ;
    }
}

spec fn step_indices(a: ArrayView<F64>, y_factor: usize, x_factor: usize, offset: nat, t: int) -> Seq<
    nat,
> {
    block_indices(
        a,
        y_factor,
        x_factor,
        offset,
        (t / x_factor as int) as nat,
        (t % x_factor as int) as nat,
    )
}

spec fn block_at(a: ArrayView<F64>, y_factor: usize, x_factor: usize, offset: nat, t: int) -> int {
    ravel(a.shape, step_indices(a, y_factor, x_factor, offset, t)) as int
}

proof fn lemma_encloses_block(
    a: ArrayView<F64>,
    y_factor: usize,
    x_factor: usize,
    out_shape: Seq<usize>,
    idx: Seq<nat>,
    m: Seq<nat>,
)
    requires
        array_ok(a),
        plane_error(a.dims) is None,
        aggregate_error(a, y_factor, x_factor) is None,
        out_shape == aggregated_shape(a, y_factor, x_factor),
        in_bounds(out_shape, idx),
        in_bounds(a.shape, m),
    ensures
        ({
            let (y, x) = (y_axis_of(a), x_axis_of(a));
            encloses(a.dims, out_shape, idx, a.shape, m) <==> {
                &&& idx[y] * y_factor <= m[y] < idx[y] * y_factor + y_factor
                &&& idx[x] * x_factor <= m[x] < idx[x] * x_factor + x_factor
                &&& forall|k: int| 0 <= k < m.len() && k != y && k != x ==> m[k] == idx[k]
            }
        }),
{
    lemma_plane_axes(a);
    let y = y_axis_of(a);
    let x = x_axis_of(a);
    lemma_exact_quotient(plane_of(a).0 as nat, y_factor as nat);
    lemma_exact_quotient(plane_of(a).1 as nat, x_factor as nat);
    assert(a.shape[y] == out_shape[y] * y_factor && a.shape[x] == out_shape[x] * x_factor);
    lemma_within_block(m[y] as int, idx[y] as int, out_shape[y] as int, y_factor as int);
    lemma_within_block(m[x] as int, idx[x] as int, out_shape[x] as int, x_factor as int);
    assert(a.dims[y] == "y"@ && a.dims[x] == "x"@);
    if encloses(a.dims, out_shape, idx, a.shape, m) {
        assert forall|k: int| 0 <= k < m.len() && k != y && k != x implies m[k] == idx[k] by {
            assert(a.dims[k] != a.dims[y] && a.dims[k] != a.dims[x]);
        }
    }
}

/// Each element of an aggregated array is the mean of the values that lie in it; where there
/// are none it is masked and not a number.
#[verifier::spinoff_prover]
#[verifier::rlimit(40)]
pub proof fn lemma_aggregated_is_mean<M: Fn(Vec<F64>) -> F64>(
    out: ArrayView<F64>,
    a: ArrayView<F64>,
    y_factor: usize,
    x_factor: usize,
    mean: M,
    coords: Map<Seq<char>, CoordinateView>,
    idx: Seq<nat>,
) -> (block: (Seq<F64>, Seq<Seq<nat>>))
    requires
        array_ok(a),
        plane_error(a.dims) is None,
        aggregate_error(a, y_factor, x_factor) is None,
        is_aggregated(out, a, y_factor, x_factor, mean, coords),
        in_bounds(out.shape, idx),
    ensures
        ({
            let (list, members) = block;
            let o = ravel(out.shape, idx) as int;
            &&& are_block_values(list, members, a, out.shape, idx)
            &&& 0 <= o < out.values.len()
            &&& (out.mask is Some && out.mask->Some_0[o]) == (list.len() == 0)
            &&& if list.len() == 0 {
                out.values[o].bits == NAN_BITS_64
            } else {
                exists|v: Vec<F64>| v@ == list && #[trigger] mean.ensures((v,), out.values[o])
            }
        }),
{
    lemma_plane_axes(a);
    let y = y_axis_of(a);
    let x = x_axis_of(a);
    let yf = y_factor as int;
    let xf = x_factor as int;
    lemma_unravel_ravel(out.shape, idx);
    lemma_ravel_bounded(out.shape, idx);
    let o = ravel(out.shape, idx);
    let list = block_of(a, y_factor, x_factor, o);
    let n = (y_factor * x_factor) as nat;
    let steps = lemma_block_steps(a, y_factor, x_factor, o, n);
    let taken = |t: int| has_value(a, block_at(a, y_factor, x_factor, o, t));
    let members = Seq::new(
        steps.len(),
        |j: int| step_indices(a, y_factor, x_factor, o, steps[j]),
    );
    lemma_exact_quotient(plane_of(a).0 as nat, y_factor as nat);
    lemma_exact_quotient(plane_of(a).1 as nat, x_factor as nat);
    assert(a.shape[y] == out.shape[y] * yf && a.shape[x] == out.shape[x] * xf);
    assert forall|j: int| 0 <= j < members.len() implies {
        let i = ravel(a.shape, #[trigger] members[j]) as int;
        &&& encloses(a.dims, out.shape, idx, a.shape, members[j])
        &&& has_value(a, i)
        &&& list[j] == a.values[i]
    } by {
        let t = steps[j];
        lemma_step_inside(t, yf, xf);
        lemma_block_bounded(a, y_factor, x_factor, o, (t / xf) as nat, (t % xf) as nat);
        assert(taken(t));
        let m = members[j];
        assert(m[y] == idx[y] * yf + t / xf);
        assert(m[x] == idx[x] * xf + t % xf);
        lemma_encloses_block(a, y_factor, x_factor, out.shape, idx, m);
        assert(forall|k: int| 0 <= k < m.len() && k != y && k != x ==> m[k] == idx[k]);
    }
    assert forall|m: Seq<nat>| #[trigger]
        encloses(a.dims, out.shape, idx, a.shape, m) && has_value(
            a,
            ravel(a.shape, m) as int,
        ) implies members.contains(m) by {
        lemma_encloses_block(a, y_factor, x_factor, out.shape, idx, m);
        let dy = m[y] - idx[y] * yf;
        let dx = m[x] - idx[x] * xf;
        let t = dy * xf + dx;
        lemma_fundamental_div_mod_converse(t, xf, dy, dx);
        assert(0 <= t < yf * xf) by (nonlinear_arith)
            requires
                0 <= dy < yf,
                0 <= dx < xf,
                t == dy * xf + dx,
        ;
        assert(step_indices(a, y_factor, x_factor, o, t) =~= m);
        assert(taken(t));
        let j = choose|j: int| 0 <= j < steps.len() && steps[j] == t;
        assert(members[j] == m);
    }
    assert forall|j: int, k: int, p: int, q: int|
        #![trigger members[j][p], members[k][q]]
        0 <= j < k < members.len() && 0 <= p < a.dims.len() && 0 <= q < a.dims.len() && a.dims[p]
            == "y"@ && a.dims[q] == "x"@ implies members[j][p] < members[k][p] || (members[j][p]
        == members[k][p] && members[j][q] < members[k][q]) by {
        assert(p == y && q == x);
        lemma_step_inside(steps[j], yf, xf);
        lemma_step_inside(steps[k], yf, xf);
        lemma_steps_ordered(steps[j], steps[k], xf);
        assert(members[j][y] == idx[y] * yf + steps[j] / xf);
        assert(members[j][x] == idx[x] * xf + steps[j] % xf);
        assert(members[k][y] == idx[y] * yf + steps[k] / xf);
        assert(members[k][x] == idx[x] * xf + steps[k] % xf);
    }
    lemma_flag_kept(aggregated_flags(a, y_factor, x_factor), o as int);
    assert(are_block_values(list, members, a, out.shape, idx));
    if list.len() > 0 {
        assert(mean_gives(mean, list, out.values[o as int]));
    }
    (list, members)
}

/// Whether each element of an array shows what the source element shows in which it lies.
pub open spec fn shows_source<T>(out: ArrayView<T>, a: ArrayView<T>) -> bool {
    &&& out.dims == a.dims
    &&& forall|idx: Seq<nat>| #[trigger]
        in_bounds(out.shape, idx) ==> exists|at: Seq<nat>| #[trigger]
            encloses(a.dims, a.shape, at, out.shape, idx) && {
                let o = ravel(out.shape, idx) as int;
                let i = ravel(a.shape, at) as int;
                &&& out.values[o] == a.values[i]
                &&& (out.mask is Some && out.mask->Some_0[o]) == (a.mask is Some
                    && a.mask->Some_0[i])
            }
}

/// Whether each element of an array is the mean of the values that lie in it, and masked and
/// not a number where there are none.
pub open spec fn averages<M: Fn(Vec<F64>) -> F64>(
    out: ArrayView<F64>,
    a: ArrayView<F64>,
    mean: M,
) -> bool {
    &&& out.dims == a.dims
    &&& forall|idx: Seq<nat>| #[trigger]
        in_bounds(out.shape, idx) ==> exists|list: Seq<F64>, members: Seq<Seq<nat>>| #[trigger]
            are_block_values(list, members, a, out.shape, idx) && {
                let o = ravel(out.shape, idx) as int;
                &&& (out.mask is Some && out.mask->Some_0[o]) == (list.len() == 0)
                &&& if list.len() == 0 {
                    out.values[o].bits == NAN_BITS_64
                } else {
                    exists|v: Vec<F64>| v@ == list && #[trigger] mean.ensures((v,), out.values[o])
                }
            }
}

proof fn lemma_enlarged_shows<T>(a: ArrayView<T>, g: AreaGridView)
    requires
        array_ok(a),
        crate::area::area_grid_ok(g),
        native_error(a, g) is None,
        0 < size_along(a, "y"@) <= g.area.height,
        0 < size_along(a, "x"@) <= g.area.width,
    ensures
        shows_source(enlarged(a, g), a),
        size_along(enlarged(a, g), "y"@) == g.area.height,
        size_along(enlarged(a, g), "x"@) == g.area.width,
{
    let out = enlarged(a, g);
    lemma_plane_axes(a);
    lemma_reaches_plane(a, g);
    assert forall|idx: Seq<nat>| #[trigger] in_bounds(out.shape, idx) implies exists|at: Seq<nat>|
     #[trigger]
        encloses(a.dims, a.shape, at, out.shape, idx) && {
            let o = ravel(out.shape, idx) as int;
            let i = ravel(a.shape, at) as int;
            &&& out.values[o] == a.values[i]
            &&& (out.mask is Some && out.mask->Some_0[o]) == (a.mask is Some
                && a.mask->Some_0[i])
        } by {
        let at = lemma_enlarged_shows_source(a, g, idx);
        assert(encloses(a.dims, a.shape, at, out.shape, idx));
    }
}

proof fn lemma_aggregated_averages<M: Fn(Vec<F64>) -> F64>(
    out: ArrayView<F64>,
    a: ArrayView<F64>,
    y_factor: usize,
    x_factor: usize,
    mean: M,
    coords: Map<Seq<char>, CoordinateView>,
)
    requires
        array_ok(a),
        plane_error(a.dims) is None,
        aggregate_error(a, y_factor, x_factor) is None,
        is_aggregated(out, a, y_factor, x_factor, mean, coords),
    ensures
        averages(out, a, mean),
{
    assert forall|idx: Seq<nat>| #[trigger] in_bounds(out.shape, idx) implies exists|
        list: Seq<F64>,
        members: Seq<Seq<nat>>,
    | #[trigger]
        are_block_values(list, members, a, out.shape, idx) && {
            let o = ravel(out.shape, idx) as int;
            &&& (out.mask is Some && out.mask->Some_0[o]) == (list.len() == 0)
            &&& if list.len() == 0 {
                out.values[o].bits == NAN_BITS_64
            } else {
                exists|v: Vec<F64>| v@ == list && #[trigger] mean.ensures((v,), out.values[o])
            }
        } by {
        let (list, members) = lemma_aggregated_is_mean(
            out,
            a,
            y_factor,
            x_factor,
            mean,
            coords,
            idx,
        );
        assert(are_block_values(list, members, a, out.shape, idx));
    }
}

/// A native resampling of numbers: to a plane that is not smaller, each element shows what the
/// source element shows in which it lies; to a smaller one, each is the mean of what lies in it.
pub proof fn lemma_native_shows_source<M: Fn(Vec<F64>) -> F64>(
    out: ArrayView<F64>,
    a: ArrayView<F64>,
    g: AreaGridView,
    mean: M,
    same: Map<Seq<char>, CoordinateView>,
)
    requires
        array_ok(a),
        crate::area::area_grid_ok(g),
        native_error(a, g) is None,
        size_along(a, "y"@) > 0,
        size_along(a, "x"@) > 0,
        is_native(out, a, g, mean, same),
    ensures
        size_along(out, "y"@) == g.area.height,
        size_along(out, "x"@) == g.area.width,
        if size_along(a, "y"@) <= g.area.height && size_along(a, "x"@) <= g.area.width {
            shows_source(out, a)
        } else {
            averages(out, a, mean)
        },
{
    lemma_plane_axes(a);
    lemma_reaches_plane(a, g);
    match scale_of(plane_of(a), (g.area.height, g.area.width)) {
        NativeScale::Aggregate { y_factor, x_factor } => {
            lemma_aggregated_averages(
                out,
                a,
                y_factor,
                x_factor,
                mean,
                plane_coordinates(kept_coordinates(PlaneNames::Area, a.coords), g),
            );
        },
        _ => {
            lemma_enlarged_shows(a, g);
            let like = enlarged(a, g);
            assert(out.shape == like.shape && out.values == like.values && out.mask == like.mask);
            assert forall|idx: Seq<nat>| #[trigger] in_bounds(out.shape, idx) implies exists|
                at: Seq<nat>,
            | #[trigger]
                encloses(a.dims, a.shape, at, out.shape, idx) && {
                    let o = ravel(out.shape, idx) as int;
                    let i = ravel(a.shape, at) as int;
                    &&& out.values[o] == a.values[i]
                    &&& (out.mask is Some && out.mask->Some_0[o]) == (a.mask is Some
                        && a.mask->Some_0[i])
                } by {
                assert(in_bounds(like.shape, idx));
            }
        },
    }
}

/// Whether an array of any element type shows what a source of that type shows.
pub open spec fn any_shows_source(out: AnyArrayView, v: AnyArrayView) -> bool {
    match v {
        AnyArrayView::F32(a) => out is F32 && shows_source(out->F32_0, a),
        AnyArrayView::F64(a) => out is F64 && shows_source(out->F64_0, a),
        AnyArrayView::U8(a) => out is U8 && shows_source(out->U8_0, a),
        AnyArrayView::U16(a) => out is U16 && shows_source(out->U16_0, a),
        AnyArrayView::I16(a) => out is I16 && shows_source(out->I16_0, a),
    }
}

/// A native resampling of an array of any element type: to a plane that is not smaller the
/// type is kept and each element shows what the source element shows in which it lies; to a
/// smaller one, each is the mean of what lies in it.
pub proof fn lemma_any_native_shows_source<M: Fn(Vec<F64>) -> F64>(
    out: AnyArrayView,
    v: AnyArrayView,
    g: AreaGridView,
    mean: M,
)
    requires
        crate::area::area_grid_ok(g),
        any_array_ok(v),
        native_error(outline(v), g) is None,
        size_along(outline(v), "y"@) > 0,
        size_along(outline(v), "x"@) > 0,
        is_any_native(out, v, g, mean),
    ensures
        out.dims() == v.dims(),
        size_along(outline(out), "y"@) == g.area.height,
        size_along(outline(out), "x"@) == g.area.width,
        if size_along(outline(v), "y"@) <= g.area.height && size_along(outline(v), "x"@)
            <= g.area.width {
            any_shows_source(out, v)
        } else {
            out is F64 && exists|numbers: Seq<F64>| #[trigger]
                are_numbers(v, numbers) && averages(
                    out->F64_0,
                    (ArrayView {
                        shape: v.shape(),
                        dims: v.dims(),
                        values: numbers,
                        mask: v.mask(),
                        coords: v.coords(),
                    }),
                    mean,
                )
        },
{
    match scale_of(plane_of(outline(v)), (g.area.height, g.area.width)) {
        NativeScale::Aggregate { y_factor, x_factor } => {
            let numbers = choose|numbers: Seq<F64>| #[trigger]
                are_numbers(v, numbers) && out is F64 && is_aggregated(
                    out->F64_0,
                    as_numbers(v, numbers),
                    y_factor,
                    x_factor,
                    mean,
                    plane_coordinates(kept_coordinates(PlaneNames::Area, v.coords()), g),
                );
            let a = as_numbers(v, numbers);
            lemma_plane_axes(a);
            lemma_reaches_plane(a, g);
            lemma_aggregated_averages(
                out->F64_0,
                a,
                y_factor,
                x_factor,
                mean,
                plane_coordinates(kept_coordinates(PlaneNames::Area, v.coords()), g),
            );
        },
        _ => {
            match v {
                AnyArrayView::F32(a) => lemma_enlarged_shows(a, g),
                AnyArrayView::F64(a) => lemma_enlarged_shows(a, g),
                AnyArrayView::U8(a) => lemma_enlarged_shows(a, g),
                AnyArrayView::U16(a) => lemma_enlarged_shows(a, g),
                AnyArrayView::I16(a) => lemma_enlarged_shows(a, g),
            }
        },
    }
}

/// Whether `list` are the values in a pixel of a plane of `height` times `width` pixels: those
/// of exactly the pixels of a source plane that lie in it and show a value, in their order.
/// `chosen` are their numbers.
pub open spec fn are_pixel_values(
    list: Seq<F64>,
    chosen: Seq<int>,
    a: ArrayView<F64>,
    height: int,
    width: int,
    y: int,
    x: int,
) -> bool {
    let (rows, columns) = (a.shape[0] as int, a.shape[1] as int);
    selects(
        list,
        chosen,
        rows * columns,
        |i: int|
            lies_within(i / columns, rows, y, height) && lies_within(i % columns, columns, x, width)
                && has_value(a, i),
        |i: int| a.values[i],
    )
}

proof fn lemma_plane_steps(
    a: ArrayView<F64>,
    y_factor: usize,
    x_factor: usize,
    y: nat,
    x: nat,
    n: nat,
) -> (steps: Seq<int>)
    requires
        array_ok(a),
        is_plane(a),
        y_factor > 0,
        x_factor > 0,
        a.shape[0] % y_factor == 0,
        a.shape[1] % x_factor == 0,
        y < a.shape[0] / y_factor,
        x < a.shape[1] / x_factor,
        n <= y_factor * x_factor,
    ensures
        selects(
            plane_block(a, y_factor, x_factor, y, x, n),
            steps,
            n as int,
            |t: int| has_value(a, step_pixel(a, y_factor, x_factor, y, x, t)),
            |t: int| a.values[step_pixel(a, y_factor, x_factor, y, x, t)],
        ),
    decreases n,
{
    let taken = |t: int| has_value(a, step_pixel(a, y_factor, x_factor, y, x, t));
    let value = |t: int| a.values[step_pixel(a, y_factor, x_factor, y, x, t)];
    if n == 0 {
        Seq::empty()
    } else {
        let t = (n - 1) as nat;
        let before = lemma_plane_steps(a, y_factor, x_factor, y, x, t);
        lemma_selects_next(
            plane_block(a, y_factor, x_factor, y, x, t),
            before,
            t as int,
            taken,
            value,
        );
        lemma_plane_len(a);
        lemma_step_inside(t as int, y_factor as int, x_factor as int);
        lemma_block_pixel(
            a.shape[0] as int,
            a.shape[1] as int,
            y_factor as int,
            x_factor as int,
            y as int,
            x as int,
            t as int / x_factor as int,
            t as int % x_factor as int,
        );
        if taken(t as int) {
            before.push(t as int)
        } else {
            before
        }
    }
}

spec fn step_pixel(a: ArrayView<F64>, y_factor: usize, x_factor: usize, y: nat, x: nat, t: int) -> int {
    block_pixel(
        a.shape[1] as int,
        y_factor as int,
        x_factor as int,
        y as int,
        x as int,
        t / x_factor as int,
        t % x_factor as int,
    )
}

/// Each pixel of an aggregated plane is the mean of the values that lie in it; where there are
/// none it is masked and not a number.
pub proof fn lemma_aggregated_plane_is_mean<M: Fn(Vec<F64>) -> F64>(
    out: ArrayView<F64>,
    a: ArrayView<F64>,
    y_factor: usize,
    x_factor: usize,
    mean: M,
    y: int,
    x: int,
) -> (block: (Seq<F64>, Seq<int>))
    requires
        array_ok(a),
        is_plane(a),
        y_factor > 0,
        x_factor > 0,
        a.shape[0] % y_factor == 0,
        a.shape[1] % x_factor == 0,
        is_aggregated_plane(out, a, y_factor, x_factor, mean),
        0 <= y < out.shape[0],
        0 <= x < out.shape[1],
    ensures
        ({
            let (list, chosen) = block;
            let o = y * out.shape[1] + x;
            &&& out.shape[0] * y_factor == a.shape[0]
            &&& out.shape[1] * x_factor == a.shape[1]
            &&& are_pixel_values(
                list,
                chosen,
                a,
                out.shape[0] as int,
                out.shape[1] as int,
                y,
                x,
            )
            &&& 0 <= o < out.values.len()
            &&& (out.mask is Some && out.mask->Some_0[o]) == (list.len() == 0)
            &&& if list.len() == 0 {
                out.values[o].bits == NAN_BITS_64
            } else {
                exists|v: Vec<F64>| v@ == list && #[trigger] mean.ensures((v,), out.values[o])
            }
        }),
{
    let yf = y_factor as int;
    let xf = x_factor as int;
    let h = a.shape[0] / y_factor;
    let w = a.shape[1] / x_factor;
    let columns = a.shape[1] as int;
    let rows = a.shape[0] as int;
    lemma_plane_len(a);
    lemma_pixel_inside(y, x, h as int, w as int);
    lemma_exact_quotient(a.shape[0] as nat, y_factor as nat);
    lemma_exact_quotient(a.shape[1] as nat, x_factor as nat);
    let o = y * w + x;
    lemma_fundamental_div_mod_converse(o, w as int, y, x);
    let list = plane_block_of(a, y_factor, x_factor, w as int, o);
    let n = (y_factor * x_factor) as nat;
    let steps = lemma_plane_steps(a, y_factor, x_factor, y as nat, x as nat, n);
    let took = |t: int| has_value(a, step_pixel(a, y_factor, x_factor, y as nat, x as nat, t));
    let chosen = Seq::new(
        steps.len(),
        |j: int| step_pixel(a, y_factor, x_factor, y as nat, x as nat, steps[j]),
    );
    let taken = |i: int|
        lies_within(i / columns, rows, y, h as int) && lies_within(i % columns, columns, x, w as int)
            && has_value(a, i);
    assert(rows == h * yf && columns == w * xf);
    assert forall|t: int| 0 <= t < n implies {
        let i = #[trigger] step_pixel(a, y_factor, x_factor, y as nat, x as nat, t);
        &&& 0 <= i < rows * columns
        &&& i / columns == y * yf + t / xf
        &&& i % columns == x * xf + t % xf
        &&& (taken(i) <==> took(t))
    } by {
        lemma_step_inside(t, yf, xf);
        lemma_block_pixel(rows, columns, yf, xf, y, x, t / xf, t % xf);
        let i = step_pixel(a, y_factor, x_factor, y as nat, x as nat, t);
        lemma_fundamental_div_mod_converse(i, columns, y * yf + t / xf, x * xf + t % xf);
        lemma_within_block(y * yf + t / xf, y, h as int, yf);
        lemma_within_block(x * xf + t % xf, x, w as int, xf);
    }
    assert forall|j: int, k: int| 0 <= j < k < chosen.len() implies chosen[j] < chosen[k] by {
        lemma_step_inside(steps[j], yf, xf);
        lemma_step_inside(steps[k], yf, xf);
        lemma_steps_ordered(steps[j], steps[k], xf);
        let (p, q) = (y * yf + steps[j] / xf, y * yf + steps[k] / xf);
        let (c, d) = (x * xf + steps[j] % xf, x * xf + steps[k] % xf);
        lemma_block_pixel(rows, columns, yf, xf, y, x, steps[j] / xf, steps[j] % xf);
        lemma_block_pixel(rows, columns, yf, xf, y, x, steps[k] / xf, steps[k] % xf);
        assert(p * columns + c < q * columns + d) by (nonlinear_arith)
            requires
                p < q || (p == q && c < d),
                0 <= c < columns,
                0 <= d < columns,
        ;
    }
    assert forall|j: int| 0 <= j < chosen.len() implies 0 <= #[trigger] chosen[j] < rows * columns
        && taken(chosen[j]) && list[j] == a.values[chosen[j]] by {
        assert(took(steps[j]));
    }
    assert forall|i: int| 0 <= i < rows * columns && #[trigger] taken(i) implies chosen.contains(
        i,
    ) by {
        lemma_within_block(i / columns, y, h as int, yf);
        lemma_within_block(i % columns, x, w as int, xf);
        let dy = i / columns - y * yf;
        let dx = i % columns - x * xf;
        let t = dy * xf + dx;
        lemma_fundamental_div_mod_converse(t, xf, dy, dx);
        assert(0 <= t < yf * xf) by (nonlinear_arith)
            requires
                0 <= dy < yf,
                0 <= dx < xf,
                t == dy * xf + dx,
        ;
        assert(i == (i / columns) * columns + i % columns) by (nonlinear_arith)
            requires
                columns > 0,
        ;
        assert(step_pixel(a, y_factor, x_factor, y as nat, x as nat, t) == i);
        assert(took(t));
        let j = choose|j: int| 0 <= j < steps.len() && steps[j] == t;
        assert(chosen[j] == i);
    }
    lemma_flag_kept(
        Seq::new(
            (h * w) as nat,
            |o: int| plane_block_of(a, y_factor, x_factor, w as int, o).len() == 0,
        ),
        o,
    );
    let block = |o: int| plane_block_of(a, y_factor, x_factor, w as int, o);
    assert(Seq::new((h * w) as nat, |o: int| block(o).len() == 0) =~= Seq::new(
        (h * w) as nat,
        |o: int| plane_block_of(a, y_factor, x_factor, w as int, o).len() == 0,
    ));
    if list.len() > 0 {
        assert(mean_gives(mean, list, out.values[o]));
    }
    assert(are_pixel_values(list, chosen, a, h as int, w as int, y, x));
    (list, chosen)
}

/// Each pixel of a repeated plane shows what the source pixel shows in which it lies.
pub proof fn lemma_repeated_plane_shows_source<T>(
    a: ArrayView<T>,
    y_factor: usize,
    x_factor: usize,
    y: int,
    x: int,
) -> (at: (int, int))
    requires
        array_ok(a),
        is_plane(a),
        a.shape[0] > 0,
        a.shape[1] > 0,
        y_factor > 0,
        x_factor > 0,
        a.shape[0] * y_factor <= usize::MAX,
        a.shape[1] * x_factor <= usize::MAX,
        0 <= y < a.shape[0] * y_factor,
        0 <= x < a.shape[1] * x_factor,
    ensures
        ({
            let out = repeated_plane(a, y_factor, x_factor);
            let o = y * out.shape[1] + x;
            let i = at.0 * a.shape[1] + at.1;
            &&& out.shape == seq![
                (a.shape[0] * y_factor) as usize,
                (a.shape[1] * x_factor) as usize,
            ]
            &&& out.values.len() == out.shape[0] * out.shape[1]
            &&& 0 <= at.0 < a.shape[0]
            &&& 0 <= at.1 < a.shape[1]
            &&& lies_within(y, out.shape[0] as int, at.0, a.shape[0] as int)
            &&& lies_within(x, out.shape[1] as int, at.1, a.shape[1] as int)
            &&& out.values[o] == a.values[i]
            &&& (out.mask is Some && out.mask->Some_0[o]) == (a.mask is Some
                && a.mask->Some_0[i])
        }),
{
    let out = repeated_plane(a, y_factor, x_factor);
    let (yf, xf) = (y_factor as int, x_factor as int);
    let (h, w) = (a.shape[0] as int, a.shape[1] as int);
    lemma_plane_len(a);
    lemma_pixel_inside(y, x, h * yf, w * xf);
    let o = y * (w * xf) + x;
    lemma_fundamental_div_mod_converse(o, w * xf, y, x);
    lemma_repeat_pixel(o, h, w, yf, xf);
    lemma_quotient_encloses(y, h, yf);
    lemma_quotient_encloses(x, w, xf);
    lemma_flag_kept(repeated_plane_flags(a, y_factor, x_factor), o);
    (y / yf, x / xf)
}

/// A native resampling of an array of any element type has the axes of the target.
pub proof fn lemma_native_axes<M: Fn(Vec<F64>) -> F64>(
    out: AnyArrayView,
    v: AnyArrayView,
    g: AreaGridView,
    mean: M,
)
    requires
        is_any_native(out, v, g, mean),
    ensures
        out.coords().contains_key("x"@),
        out.coords()["x"@].dims == seq!["x"@],
        out.coords()["x"@].values == g.x,
        out.coords().contains_key("y"@),
        out.coords()["y"@].dims == seq!["y"@],
        out.coords()["y"@].values == g.y,
        forall|k: Seq<char>|
            k != "x"@ && k != "y"@ && #[trigger] out.coords().contains_key(k)
                ==> v.coords().contains_key(k) && out.coords()[k] == v.coords()[k],
{
    lemma_y_is_not_x();
}

} // verus!
