//! Sampling of an array by line and sample numbers.

use crate::array::{
    array_ok, coordinate_shape_of, copy_values, fits, lemma_y_is_not_x, masked_in, size_along,
    AnyArrayView, AnyDataArray, ArrayView, Coordinate, CoordinateView, DataArray, DataGrid, ValidityMask,
};
use crate::error::{fails_with, is_invalid, ErrorView, Result, RustySatError};
use crate::nd_utils::{
    checked_shape_size, first_zero, in_bounds, lemma_first_zero_of_no_zero, lemma_no_overflow, lemma_ravel_bounded,
    lemma_ravel_unravel, lemma_size_positive, lemma_size_push, lemma_two_axes,
    lemma_unravel_ravel, no_zero, ravel, row_major_strides, size_of_shape, stride, strides_of,
    strides_overflow, unravel, unravel_offset,
};
use crate::number::{F32, F64, NAN_BITS_64};
use crate::text::{
    copy_texts, join2, join3, lemma_position_in, position_in, position_of, same_text, size_text,
    texts,
};
use crate::text_map::Duplicate;
use vstd::prelude::*;

verus! {

/// Line and sample numbers as a mathematical value.
pub struct LineSampleView {
    pub height: usize,
    pub width: usize,
    pub rows: Seq<isize>,
    pub cols: Seq<isize>,
}

/// For each pixel of a target plane the line and the sample in the source plane.
#[derive(Debug, PartialEq, Eq)]
pub struct LineSampleGrid {
    height: usize,
    width: usize,
    rows: Vec<isize>,
    cols: Vec<isize>,
}

impl View for LineSampleGrid {
    type V = LineSampleView;

    closed spec fn view(&self) -> LineSampleView {
        LineSampleView {
            height: self.height,
            width: self.width,
            rows: self.rows@,
            cols: self.cols@,
        }
    }
}

impl Clone for LineSampleGrid {
    fn clone(&self) -> (r: Self)
        ensures
            r@ == self@,
    {
        proof {
            use_type_invariant(self);
        }
        LineSampleGrid {
            height: self.height,
            width: self.width,
            rows: copy_values(&self.rows),
            cols: copy_values(&self.cols),
        }
    }
}

/// What holds of every line/sample grid.
pub open spec fn linesample_ok(g: LineSampleView) -> bool {
    &&& g.height > 0
    &&& g.width > 0
    &&& g.height * g.width <= usize::MAX
    &&& g.rows.len() == g.height * g.width
    &&& g.cols.len() == g.height * g.width
}

impl LineSampleGrid {
    #[verifier::type_invariant]
    pub open spec fn inv(&self) -> bool {
        linesample_ok(self@)
    }

    pub fn new(height: usize, width: usize, rows: Vec<isize>, cols: Vec<isize>) -> (r: Result<Self>)
        ensures
            height == 0 || width == 0 ==> is_invalid(
                r,
                "line/sample target shape must be non-zero"@,
            ),
            height > 0 && width > 0 && height * width > usize::MAX ==> is_invalid(
                r,
                "line/sample target shape overflows usize"@,
            ),
            height > 0 && width > 0 && height * width <= usize::MAX && !(rows@.len() == height
                * width && cols@.len() == height * width) ==> is_invalid(
                r,
                "line/sample rows and cols must both have "@ + crate::text::decimal(
                    (height * width) as nat,
                ) + " values"@,
            ),
            height > 0 && width > 0 && rows@.len() == height * width && cols@.len() == height
                * width ==> r is Ok,
            r is Ok ==> r->Ok_0@ == (LineSampleView { height, width, rows: rows@, cols: cols@ }),
    {
        if height == 0 || width == 0 {
            return Err(RustySatError::invalid_input("line/sample target shape must be non-zero"));
        }
        let _given: usize = rows.len();
        let expected: usize = match height.checked_mul(width) {
            Some(n) => n,
            None => {
                return Err(
                    RustySatError::invalid_input("line/sample target shape overflows usize"),
                );
            },
        };
        if rows.len() != expected || cols.len() != expected {
            let n = size_text(expected);
            let text = join3("line/sample rows and cols must both have ", n.as_str(), " values");
            return Err(RustySatError::invalid_input(text.as_str()));
        }
        Ok(LineSampleGrid { height, width, rows, cols })
    }

    pub fn height(&self) -> (r: usize)
        ensures
            r == self@.height,
    {
        self.height
    }

    pub fn width(&self) -> (r: usize)
        ensures
            r == self@.width,
    {
        self.width
    }

    pub fn shape(&self) -> (r: (usize, usize))
        ensures
            r == (self@.height, self@.width),
    {
        (self.height, self.width)
    }

    pub fn rows(&self) -> (r: &[isize])
        ensures
            r@ == self@.rows,
    {
        self.rows.as_slice()
    }

    pub fn cols(&self) -> (r: &[isize])
        ensures
            r@ == self@.cols,
    {
        self.cols.as_slice()
    }

    /// The number of target pixels.
    pub fn len(&self) -> (r: usize)
        ensures
            r == self@.rows.len(),
            r == self@.height * self@.width,
    {
        proof {
            use_type_invariant(self);
        }
        self.rows.len()
    }

    /// Whether there is no target pixel, which is never so.
    pub fn is_empty(&self) -> (r: bool)
        ensures
            r == (self@.rows.len() == 0),
            !r,
    {
        proof {
            use_type_invariant(self);
            let h = self@.height;
            let w = self@.width;
            assert(h * w > 0) by (nonlinear_arith)
                requires
                    h > 0,
                    w > 0,
            ;
        }
        self.rows.len() == 0
    }
}

/// A fill value of any of the element types.
#[derive(Clone, Copy, Debug, PartialEq)]
pub enum LineSampleFillValue {
    F32(F32),
    F64(F64),
    U8(u8),
    U16(u16),
    I16(i16),
}

/// The text of the error for a fill value of another element type.
pub open spec fn fill_type_text(expected: Seq<char>) -> Seq<char> {
    "line/sample fill value must match source dtype "@ + expected
}

fn fill_type_error(expected: &str) -> (r: RustySatError)
    ensures
        r@ == ErrorView::InvalidInput(fill_type_text(expected@)),
{
    let text = join2("line/sample fill value must match source dtype ", expected);
    RustySatError::invalid_input(text.as_str())
}

impl LineSampleFillValue {
    pub fn of_f32(value: F32) -> (r: Self)
        ensures
            r == LineSampleFillValue::F32(value),
    {
        LineSampleFillValue::F32(value)
    }

    pub fn of_f64(value: F64) -> (r: Self)
        ensures
            r == LineSampleFillValue::F64(value),
    {
        LineSampleFillValue::F64(value)
    }

    pub fn u8(value: u8) -> (r: Self)
        ensures
            r == LineSampleFillValue::U8(value),
    {
        LineSampleFillValue::U8(value)
    }

    pub fn u16(value: u16) -> (r: Self)
        ensures
            r == LineSampleFillValue::U16(value),
    {
        LineSampleFillValue::U16(value)
    }

    pub fn i16(value: i16) -> (r: Self)
        ensures
            r == LineSampleFillValue::I16(value),
    {
        LineSampleFillValue::I16(value)
    }

    fn as_f32(self) -> (r: Result<F32>)
        ensures
            self is F32 ==> r == Ok::<F32, RustySatError>(self->F32_0),
            !(self is F32) ==> is_invalid(r, fill_type_text("f32"@)),
    {
        match self {
            LineSampleFillValue::F32(value) => Ok(value),
            _ => Err(fill_type_error("f32")),
        }
    }

    fn as_f64(self) -> (r: Result<F64>)
        ensures
            self is F64 ==> r == Ok::<F64, RustySatError>(self->F64_0),
            !(self is F64) ==> is_invalid(r, fill_type_text("f64"@)),
    {
        match self {
            LineSampleFillValue::F64(value) => Ok(value),
            _ => Err(fill_type_error("f64")),
        }
    }

    fn as_u8(self) -> (r: Result<u8>)
        ensures
            self is U8 ==> r == Ok::<u8, RustySatError>(self->U8_0),
            !(self is U8) ==> is_invalid(r, fill_type_text("u8"@)),
    {
        match self {
            LineSampleFillValue::U8(value) => Ok(value),
            _ => Err(fill_type_error("u8")),
        }
    }

    fn as_u16(self) -> (r: Result<u16>)
        ensures
            self is U16 ==> r == Ok::<u16, RustySatError>(self->U16_0),
            !(self is U16) ==> is_invalid(r, fill_type_text("u16"@)),
    {
        match self {
            LineSampleFillValue::U16(value) => Ok(value),
            _ => Err(fill_type_error("u16")),
        }
    }

    fn as_i16(self) -> (r: Result<i16>)
        ensures
            self is I16 ==> r == Ok::<i16, RustySatError>(self->I16_0),
            !(self is I16) ==> is_invalid(r, fill_type_text("i16"@)),
    {
        match self {
            LineSampleFillValue::I16(value) => Ok(value),
            _ => Err(fill_type_error("i16")),
        }
    }
}

/// Whether a line and a sample number name a pixel of the source plane.
pub open spec fn names_pixel(row: isize, col: isize, height: usize, width: usize) -> bool {
    0 <= row < height && 0 <= col < width
}

/// The number of the pixel in the source plane, where the line and the sample
/// number name one.
pub fn valid_source_index(
    row: isize,
    col: isize,
    source_height: usize,
    source_width: usize,
) -> (r: Option<usize>)
    requires
        source_height * source_width <= usize::MAX,
    ensures
        r == if names_pixel(row, col, source_height, source_width) {
            Some((row * source_width + col) as usize)
        } else {
            None::<usize>
        },
        r is Some ==> r->Some_0 < source_height * source_width && r->Some_0 == row * source_width + col,
{
    if row < 0 || col < 0 {
        return None;
    }
    let y: usize = row as usize;
    let x: usize = col as usize;
    if y >= source_height || x >= source_width {
        return None;
    }
    proof {
        assert(y * source_width + x < source_height * source_width) by (nonlinear_arith)
            requires
                y < source_height,
                x < source_width,
        ;
        assert(0 <= y * source_width) by (nonlinear_arith);
    }
    Some(y * source_width + x)
}

proof fn lemma_pixel_parts(row: nat, col: nat, width: nat)
    requires
        col < width,
    ensures
        (row * width + col) / width == row,
        (row * width + col) % width == col,
{
    vstd::arithmetic::div_mod::lemma_fundamental_div_mod_converse(
        (row * width + col) as int,
        width as int,
        row as int,
        col as int,
    );
}

/// The indices in the source of the element that the target element `offset` takes
/// its value from, where its line and sample are `row` and `col`.
pub open spec fn source_indices(
    output_shape: Seq<usize>,
    offset: nat,
    y_axis: int,
    x_axis: int,
    row: nat,
    col: nat,
) -> Seq<nat> {
    unravel(output_shape, offset).update(y_axis, row).update(x_axis, col)
}

/// The shape with the plane axes replaced.
pub open spec fn replaced_plane(
    shape: Seq<usize>,
    y_axis: int,
    x_axis: int,
    height: usize,
    width: usize,
) -> Seq<usize> {
    shape.update(y_axis, height).update(x_axis, width)
}

proof fn lemma_source_indices_in_bounds(
    source_shape: Seq<usize>,
    output_shape: Seq<usize>,
    offset: nat,
    y_axis: int,
    x_axis: int,
    row: nat,
    col: nat,
)
    requires
        0 <= y_axis < source_shape.len(),
        0 <= x_axis < source_shape.len(),
        y_axis != x_axis,
        output_shape.len() == source_shape.len(),
        no_zero(output_shape),
        forall|k: int|
            0 <= k < source_shape.len() && k != y_axis && k != x_axis ==> output_shape[k]
                == source_shape[k],
        row < source_shape[y_axis],
        col < source_shape[x_axis],
    ensures
        in_bounds(
            source_shape,
            source_indices(output_shape, offset, y_axis, x_axis, row, col),
        ),
{
    lemma_ravel_unravel(output_shape, offset);
}

/// The offset in the source of the element that a target element takes its value
/// from. `yx_index` is the number of its pixel in the source plane.
pub fn remap_output_to_source_offset(
    output_offset: usize,
    output_shape: &[usize],
    output_strides: &[usize],
    source_shape: &[usize],
    source_strides: &[usize],
    y_axis: usize,
    x_axis: usize,
    yx_index: usize,
    source_width: usize,
) -> (r: usize)
    requires
        y_axis < source_shape@.len(),
        x_axis < source_shape@.len(),
        y_axis != x_axis,
        output_shape@.len() == source_shape@.len(),
        no_zero(output_shape@),
        strides_of(output_strides@, output_shape@),
        strides_of(source_strides@, source_shape@),
        forall|k: int|
            0 <= k < source_shape@.len() && k != y_axis && k != x_axis ==> output_shape@[k]
                == source_shape@[k],
        source_width == source_shape@[x_axis as int],
        source_width > 0,
        yx_index / source_width < source_shape@[y_axis as int],
        size_of_shape(source_shape@) <= usize::MAX,
    ensures
        r == ravel(
            source_shape@,
            source_indices(
                output_shape@,
                output_offset as nat,
                y_axis as int,
                x_axis as int,
                (yx_index / source_width) as nat,
                (yx_index % source_width) as nat,
            ),
        ),
        r < size_of_shape(source_shape@),
{
    let source_y: usize = yx_index / source_width;
    let source_x: usize = yx_index % source_width;
    let ghost idx = source_indices(
        output_shape@,
        output_offset as nat,
        y_axis as int,
        x_axis as int,
        source_y as nat,
        source_x as nat,
    );
    let ghost shape = source_shape@;
    proof {
        lemma_source_indices_in_bounds(
            shape,
            output_shape@,
            output_offset as nat,
            y_axis as int,
            x_axis as int,
            source_y as nat,
            source_x as nat,
        );
        lemma_ravel_bounded(shape, idx);
        assert(shape.skip(0) =~= shape);
        assert(idx.skip(0) =~= idx);
    }
    let mut source_offset: usize = 0;
    let mut axis: usize = 0;
    while axis < output_shape.len()
        invariant
            axis <= shape.len(),
            shape == source_shape@,
            output_shape@.len() == shape.len(),
            y_axis < shape.len(),
            x_axis < shape.len(),
            no_zero(output_shape@),
            strides_of(output_strides@, output_shape@),
            strides_of(source_strides@, shape),
            idx == source_indices(
                output_shape@,
                output_offset as nat,
                y_axis as int,
                x_axis as int,
                source_y as nat,
                source_x as nat,
            ),
            in_bounds(shape, idx),
            y_axis != x_axis,
            ravel(shape, idx) < size_of_shape(shape) <= usize::MAX,
            source_offset + ravel(shape.skip(axis as int), idx.skip(axis as int)) == ravel(
                shape,
                idx,
            ),
        decreases output_shape@.len() - axis,
    {
        proof {
            lemma_size_positive(output_shape@.skip(axis + 1));
            assert(shape.skip(axis as int).drop_first() =~= shape.skip(axis + 1));
            assert(idx.skip(axis as int).drop_first() =~= idx.skip(axis + 1));
            assert(idx.skip(axis as int)[0] == idx[axis as int]);
        }
        let index: usize = if axis == y_axis {
            source_y
        } else if axis == x_axis {
            source_x
        } else {
            (output_offset / output_strides[axis]) % output_shape[axis]
        };
        assert(index == idx[axis as int]);
        source_offset = source_offset + index * source_strides[axis];
        axis = axis + 1;
    }
    source_offset
}

/// The position of a dimension.
pub fn coordinate_dim_index(dims: &Vec<String>, dim: &str) -> (r: Option<usize>)
    ensures
        r is Some <==> texts(dims@).contains(dim@),
        r is Some ==> r->Some_0 < dims@.len() && r->Some_0 == position_in(texts(dims@), dim@),
{
    position_of(dims, dim)
}

/// The line number of the target pixel `(y, x)`.
pub open spec fn row_of(g: LineSampleView, y: nat, x: nat) -> isize {
    g.rows[(y * g.width + x) as int]
}

/// The sample number of the target pixel `(y, x)`.
pub open spec fn col_of(g: LineSampleView, y: nat, x: nat) -> isize {
    g.cols[(y * g.width + x) as int]
}

/// The axis `y` of an array.
pub open spec fn y_axis_of<T>(a: ArrayView<T>) -> int {
    position_in(a.dims, "y"@) as int
}

/// The axis `x` of an array.
pub open spec fn x_axis_of<T>(a: ArrayView<T>) -> int {
    position_in(a.dims, "x"@) as int
}

/// The shape of the sampled array.
pub open spec fn sampled_shape<T>(a: ArrayView<T>, g: LineSampleView) -> Seq<usize> {
    replaced_plane(a.shape, y_axis_of(a), x_axis_of(a), g.height, g.width)
}

/// The offset in the source of the element that the target element `offset` takes
/// its value from, or nothing where its line and sample name no pixel.
pub open spec fn picked<T>(a: ArrayView<T>, g: LineSampleView, offset: nat) -> Option<nat> {
    let shape = sampled_shape(a, g);
    let idx = unravel(shape, offset);
    let row = row_of(g, idx[y_axis_of(a)], idx[x_axis_of(a)]);
    let col = col_of(g, idx[y_axis_of(a)], idx[x_axis_of(a)]);
    if names_pixel(row, col, a.shape[y_axis_of(a)], a.shape[x_axis_of(a)]) {
        Some(
            ravel(
                a.shape,
                source_indices(shape, offset, y_axis_of(a), x_axis_of(a), row as nat, col as nat),
            ),
        )
    } else {
        None
    }
}

/// Whether the target element `offset` has no value: its line and sample name no
/// pixel, or the element that they name is masked.
pub open spec fn is_missing_sample<T>(a: ArrayView<T>, g: LineSampleView, offset: nat) -> bool {
    match picked(a, g, offset) {
        Some(p) => masked_in(a.mask, p as int),
        None => true,
    }
}

/// The value of the target element `offset`.
pub open spec fn sampled_value<T>(a: ArrayView<T>, g: LineSampleView, fill: T, offset: nat) -> T {
    if is_missing_sample(a, g, offset) {
        fill
    } else {
        a.values[picked(a, g, offset)->Some_0 as int]
    }
}

/// Whether a coordinate runs along the plane.
pub open spec fn is_spatial(dims: Seq<Seq<char>>) -> bool {
    exists|k: int| 0 <= k < dims.len() && (#[trigger] dims[k] == "y"@ || dims[k] == "x"@)
}

/// Whether a sampled coordinate has the dimension `dim`.
pub open spec fn keeps_dim(coord_dims: Seq<Seq<char>>, dim: Seq<char>) -> bool {
    dim == "y"@ || dim == "x"@ || coord_dims.contains(dim)
}

/// The dimensions of a sampled coordinate, in the order of the array.
pub open spec fn sampled_dims(coord_dims: Seq<Seq<char>>, dims: Seq<Seq<char>>) -> Seq<Seq<char>>
    decreases dims.len(),
{
    if dims.len() == 0 {
        Seq::empty()
    } else if keeps_dim(coord_dims, dims.last()) {
        sampled_dims(coord_dims, dims.drop_last()).push(dims.last())
    } else {
        sampled_dims(coord_dims, dims.drop_last())
    }
}

/// The indices in a coordinate of the value for the sampled position `idx`.
pub open spec fn coordinate_source_indices(
    coord_dims: Seq<Seq<char>>,
    out_dims: Seq<Seq<char>>,
    idx: Seq<nat>,
    row: nat,
    col: nat,
) -> Seq<nat> {
    Seq::new(
        coord_dims.len(),
        |k: int|
            if coord_dims[k] == "y"@ {
                row
            } else if coord_dims[k] == "x"@ {
                col
            } else {
                idx[position_in(out_dims, coord_dims[k]) as int]
            },
    )
}

/// The value of a sampled coordinate at `offset`: not a number where the line and
/// the sample name no pixel.
pub open spec fn sampled_coordinate_value<T>(
    c: CoordinateView,
    a: ArrayView<T>,
    g: LineSampleView,
    offset: nat,
) -> F64 {
    let out_dims = sampled_dims(c.dims, a.dims);
    let idx = unravel(coordinate_shape_of(out_dims, a.dims, sampled_shape(a, g)), offset);
    let y = idx[position_in(out_dims, "y"@) as int];
    let x = idx[position_in(out_dims, "x"@) as int];
    let row = row_of(g, y, x);
    let col = col_of(g, y, x);
    if names_pixel(row, col, a.shape[y_axis_of(a)], a.shape[x_axis_of(a)]) {
        c.values[ravel(
            coordinate_shape_of(c.dims, a.dims, a.shape),
            coordinate_source_indices(c.dims, out_dims, idx, row as nat, col as nat),
        ) as int]
    } else {
        F64 { bits: NAN_BITS_64 }
    }
}

/// A coordinate of the sampled array: kept where it does not run along the plane.
pub open spec fn sampled_coordinate<T>(
    c: CoordinateView,
    a: ArrayView<T>,
    g: LineSampleView,
) -> CoordinateView {
    if is_spatial(c.dims) {
        CoordinateView {
            dims: sampled_dims(c.dims, a.dims),
            values: Seq::new(
                size_of_shape(
                    coordinate_shape_of(sampled_dims(c.dims, a.dims), a.dims, sampled_shape(a, g)),
                ),
                |o: int| sampled_coordinate_value(c, a, g, o as nat),
            ),
        }
    } else {
        c
    }
}

/// The sampled array.
pub open spec fn sampled_array<T>(
    a: ArrayView<T>,
    g: LineSampleView,
    fill: T,
    mask_missing: bool,
) -> ArrayView<T> {
    ArrayView {
        shape: sampled_shape(a, g),
        dims: a.dims,
        values: Seq::new(
            size_of_shape(sampled_shape(a, g)),
            |o: int| sampled_value(a, g, fill, o as nat),
        ),
        mask: if mask_missing {
            Some(
                Seq::new(
                    size_of_shape(sampled_shape(a, g)),
                    |o: int| is_missing_sample(a, g, o as nat),
                ),
            )
        } else {
            None
        },
        coords: a.coords.map_values(|c: CoordinateView| sampled_coordinate(c, a, g)),
    }
}

/// Whether the strides of a spatial coordinate do not fit the machine, which needs
/// a plane without pixels.
pub open spec fn coordinate_overflows<T>(a: ArrayView<T>) -> bool {
    exists|k: Seq<char>| #[trigger]
        a.coords.dom().contains(k) && is_spatial(a.coords[k].dims) && strides_overflow(
            coordinate_shape_of(a.coords[k].dims, a.dims, a.shape),
        )
}

proof fn lemma_sampled_dims(coord_dims: Seq<Seq<char>>, dims: Seq<Seq<char>>)
    requires
        dims.no_duplicates(),
    ensures
        sampled_dims(coord_dims, dims).no_duplicates(),
        forall|d: Seq<char>| #[trigger]
            sampled_dims(coord_dims, dims).contains(d) <==> dims.contains(d) && keeps_dim(
                coord_dims,
                d,
            ),
    decreases dims.len(),
{
    if dims.len() > 0 {
        let rest = dims.drop_last();
        let last = dims.last();
        let kept = sampled_dims(coord_dims, rest);
        lemma_sampled_dims(coord_dims, rest);
        let all = sampled_dims(coord_dims, dims);
        if rest.contains(last) {
            let j = choose|j: int| 0 <= j < rest.len() && rest[j] == last;
            assert(dims[j] == dims[dims.len() - 1]);
        }
        assert forall|d: Seq<char>| #[trigger] all.contains(d) <==> dims.contains(d) && keeps_dim(
            coord_dims,
            d,
        ) by {
            if dims.contains(d) && d != last {
                let j = choose|j: int| 0 <= j < dims.len() && dims[j] == d;
                assert(rest[j] == d);
            }
            if rest.contains(d) {
                let j = choose|j: int| 0 <= j < rest.len() && rest[j] == d;
                assert(dims[j] == d);
            }
            assert(dims[dims.len() - 1] == last);
            if keeps_dim(coord_dims, last) {
                assert(all[all.len() - 1] == last);
                if kept.contains(d) {
                    let j = choose|j: int| 0 <= j < kept.len() && kept[j] == d;
                    assert(all[j] == d);
                }
                if all.contains(d) && d != last {
                    let j = choose|j: int| 0 <= j < all.len() && all[j] == d;
                    assert(kept[j] == d);
                }
            }
        }
        assert forall|i: int, j: int| 0 <= i < all.len() && 0 <= j < all.len() && i != j implies all[i]
            != all[j] by {
            if keeps_dim(coord_dims, last) {
                if i == kept.len() {
                    assert(kept.contains(kept[j]));
                } else if j == kept.len() {
                    assert(kept.contains(kept[i]));
                }
            }
        }
    }
}

proof fn lemma_sampled_size(
    coord_dims: Seq<Seq<char>>,
    dims: Seq<Seq<char>>,
    shape: Seq<usize>,
    n: int,
)
    requires
        dims.no_duplicates(),
        dims.len() == shape.len(),
        no_zero(shape),
        0 <= n <= dims.len(),
    ensures
        size_of_shape(coordinate_shape_of(sampled_dims(coord_dims, dims.take(n)), dims, shape))
            <= size_of_shape(shape.take(n)),
    decreases n,
{
    if n == 0 {
        assert(sampled_dims(coord_dims, dims.take(0)).len() == 0);
        assert(coordinate_shape_of(sampled_dims(coord_dims, dims.take(0)), dims, shape).len() == 0);
        assert(shape.take(0).len() == 0);
    } else {
        let before = dims.take(n - 1);
        let here = dims.take(n);
        let d = dims[n - 1];
        assert(here.drop_last() =~= before);
        assert(here.last() == d);
        lemma_sampled_size(coord_dims, dims, shape, n - 1);
        let part = sampled_dims(coord_dims, before);
        let a = size_of_shape(coordinate_shape_of(part, dims, shape));
        let b = size_of_shape(shape.take(n - 1));
        let s = shape[n - 1];
        lemma_size_push(shape.take(n - 1), s);
        assert(shape.take(n) =~= shape.take(n - 1).push(s));
        if keeps_dim(coord_dims, d) {
            lemma_position_in(dims, d);
            assert(position_in(dims, d) == n - 1) by {
                let p = position_in(dims, d) as int;
                assert(dims[n - 1] == d);
                assert(dims.contains(d));
                assert(dims[p] == dims[n - 1]);
            }
            assert(coordinate_shape_of(part.push(d), dims, shape) =~= coordinate_shape_of(
                part,
                dims,
                shape,
            ).push(s));
            lemma_size_push(coordinate_shape_of(part, dims, shape), s);
            assert(a * s <= b * s) by (nonlinear_arith)
                requires
                    a <= b,
            ;
        } else {
            assert(b <= b * s) by (nonlinear_arith)
                requires
                    s > 0,
            ;
        }
    }
}

/// The dimensions of a sampled coordinate.
pub fn sampled_coordinate_dims(coord_dims: &Vec<String>, source_dims: &Vec<String>) -> (r: Vec<
    String,
>)
    ensures
        texts(r@) == sampled_dims(texts(coord_dims@), texts(source_dims@)),
{
    let ghost cd = texts(coord_dims@);
    let ghost sd = texts(source_dims@);
    let mut out: Vec<String> = Vec::new();
    let mut i: usize = 0;
    assert(texts(out@) =~= Seq::<Seq<char>>::empty());
    while i < source_dims.len()
        invariant
            i <= source_dims@.len(),
            cd == texts(coord_dims@),
            sd == texts(source_dims@),
            texts(out@) == sampled_dims(cd, sd.take(i as int)),
        decreases source_dims@.len() - i,
    {
        let dim = source_dims[i].as_str();
        proof {
            assert(dim@ == sd[i as int]);
            assert(sd.take(i + 1).drop_last() =~= sd.take(i as int));
            assert(sd.take(i + 1).last() == dim@);
        }
        if same_text(dim, "y") || same_text(dim, "x") || position_of(coord_dims, dim).is_some() {
            let ghost before = texts(out@);
            out.push(source_dims[i].clone());
            assert(texts(out@) =~= before.push(dim@));
        }
        i = i + 1;
    }
    assert(sd.take(sd.len() as int) =~= sd);
    out
}

/// The sizes of an array along the given dimensions.
pub fn coordinate_shape(
    coord_dims: &Vec<String>,
    data_dims: &Vec<String>,
    data_shape: &Vec<usize>,
) -> (r: Result<Vec<usize>>)
    requires
        data_dims@.len() == data_shape@.len(),
    ensures
        crate::array::dims_within(texts(coord_dims@), texts(data_dims@)) ==> r is Ok,
        r is Ok ==> crate::array::dims_within(texts(coord_dims@), texts(data_dims@))
            && r->Ok_0@ == coordinate_shape_of(
            texts(coord_dims@),
            texts(data_dims@),
            data_shape@,
        ),
        r is Err ==> exists|k: int|
            0 <= k < coord_dims@.len() && !texts(data_dims@).contains(
                #[trigger] texts(coord_dims@)[k],
            ) && is_invalid(
                r,
                "coordinate dimension '"@ + texts(coord_dims@)[k] + "' is not a data dimension"@,
            ) && forall|j: int| 0 <= j < k ==> texts(data_dims@).contains(
                #[trigger] texts(coord_dims@)[j],
            ),
{
    let ghost cd = texts(coord_dims@);
    let ghost dd = texts(data_dims@);
    let mut out: Vec<usize> = Vec::new();
    let mut i: usize = 0;
    while i < coord_dims.len()
        invariant
            i <= coord_dims@.len(),
            cd == texts(coord_dims@),
            dd == texts(data_dims@),
            data_dims@.len() == data_shape@.len(),
            out@.len() == i,
            forall|k: int| 0 <= k < i ==> dd.contains(#[trigger] cd[k]),
            forall|k: int| 0 <= k < i ==> out@[k] == data_shape@[position_in(dd, cd[k]) as int],
        decreases coord_dims@.len() - i,
    {
        assert(cd[i as int] == coord_dims@[i as int]@);
        match position_of(data_dims, coord_dims[i].as_str()) {
            Some(axis) => {
                out.push(data_shape[axis]);
            },
            None => {
                let text = join3(
                    "coordinate dimension '",
                    coord_dims[i].as_str(),
                    "' is not a data dimension",
                );
                let e = RustySatError::invalid_input(text.as_str());
                assert(!dd.contains(cd[i as int]));
                return Err(e);
            },
        }
        i = i + 1;
    }
    assert(out@ =~= coordinate_shape_of(cd, dd, data_shape@));
    Ok(out)
}

fn spatial_dims(dims: &Vec<String>) -> (r: bool)
    ensures
        r == is_spatial(texts(dims@)),
{
    let ghost t = texts(dims@);
    let mut i: usize = 0;
    while i < dims.len()
        invariant
            i <= dims@.len(),
            t == texts(dims@),
            forall|k: int| 0 <= k < i ==> t[k] != "y"@ && t[k] != "x"@,
        decreases dims@.len() - i,
    {
        if same_text(dims[i].as_str(), "y") || same_text(dims[i].as_str(), "x") {
            assert(t[i as int] == dims@[i as int]@);
            return true;
        }
        i = i + 1;
    }
    false
}

/// What the sampling of one coordinate needs: the array has the plane axes, the
/// coordinate fits it, and the sampled shape fits the machine.
pub open spec fn can_sample_coordinate<T>(
    c: CoordinateView,
    a: ArrayView<T>,
    g: LineSampleView,
) -> bool {
    &&& array_ok(a)
    &&& linesample_ok(g)
    &&& a.dims.contains("y"@)
    &&& a.dims.contains("x"@)
    &&& fits(c, a.dims, a.shape)
    &&& no_zero(sampled_shape(a, g))
    &&& size_of_shape(sampled_shape(a, g)) <= usize::MAX
}

proof fn lemma_axes<T>(a: ArrayView<T>)
    requires
        a.dims.contains("y"@),
        a.dims.contains("x"@),
    ensures
        0 <= y_axis_of(a) < a.dims.len(),
        0 <= x_axis_of(a) < a.dims.len(),
        y_axis_of(a) != x_axis_of(a),
        a.dims[y_axis_of(a)] == "y"@,
        a.dims[x_axis_of(a)] == "x"@,
{
    lemma_position_in(a.dims, "y"@);
    lemma_position_in(a.dims, "x"@);
    lemma_y_is_not_x();
}

proof fn lemma_plane_fits<T>(a: ArrayView<T>, g: LineSampleView)
    requires
        array_ok(a),
        a.dims.contains("y"@),
        a.dims.contains("x"@),
        no_zero(sampled_shape(a, g)),
    ensures
        a.shape[y_axis_of(a)] * a.shape[x_axis_of(a)] <= usize::MAX,
{
    lemma_axes(a);
    let h = a.shape[y_axis_of(a)];
    let w = a.shape[x_axis_of(a)];
    if h == 0 || w == 0 {
        assert(h * w == 0) by (nonlinear_arith)
            requires
                h == 0 || w == 0,
        ;
    } else {
        assert forall|k: int| 0 <= k < a.shape.len() implies a.shape[k] > 0 by {
            if k != y_axis_of(a) && k != x_axis_of(a) {
                assert(sampled_shape(a, g)[k] > 0);
            }
        }
        lemma_two_axes(a.shape, y_axis_of(a), x_axis_of(a));
    }
}

proof fn lemma_target_pixel(y: nat, x: nat, height: nat, width: nat)
    requires
        y < height,
        x < width,
    ensures
        0 <= y * width + x < height * width,
        0 <= y * width,
{
    assert(y * width + x < height * width) by (nonlinear_arith)
        requires
            y < height,
            x < width,
    ;
    assert(0 <= y * width) by (nonlinear_arith);
}

/// The offset in a coordinate of the value for a sampled position.
fn coordinate_source_offset(
    dims: &Vec<String>,
    output_dims: &Vec<String>,
    output_indices: &Vec<usize>,
    source_shape: &Vec<usize>,
    source_strides: &Vec<usize>,
    source_y: usize,
    source_x: usize,
) -> (r: usize)
    requires
        output_indices@.len() == output_dims@.len(),
        source_shape@.len() == dims@.len(),
        strides_of(source_strides@, source_shape@),
        forall|k: int|
            0 <= k < dims@.len() ==> texts(output_dims@).contains(#[trigger] texts(dims@)[k]),
        size_of_shape(source_shape@) <= usize::MAX,
        in_bounds(
            source_shape@,
            coordinate_source_indices(
                texts(dims@),
                texts(output_dims@),
                output_indices@.map_values(|i: usize| i as nat),
                source_y as nat,
                source_x as nat,
            ),
        ),
    ensures
        r < size_of_shape(source_shape@),
        r == ravel(
            source_shape@,
            coordinate_source_indices(
                texts(dims@),
                texts(output_dims@),
                output_indices@.map_values(|i: usize| i as nat),
                source_y as nat,
                source_x as nat,
            ),
        ),
{
    let ghost cd = texts(dims@);
    let ghost od = texts(output_dims@);
    let ghost ss = source_shape@;
    let ghost idx = output_indices@.map_values(|i: usize| i as nat);
    let ghost want = coordinate_source_indices(cd, od, idx, source_y as nat, source_x as nat);
    proof {
        lemma_ravel_bounded(ss, want);
        assert(ss.skip(0) =~= ss);
        assert(want.skip(0) =~= want);
    }
    let mut offset: usize = 0;
    let mut axis: usize = 0;
    while axis < dims.len()
        invariant
            axis <= dims@.len(),
            texts(dims@) == cd,
            texts(output_dims@) == od,
            ss == source_shape@,
            idx == output_indices@.map_values(|i: usize| i as nat),
            output_indices@.len() == output_dims@.len(),
            want == coordinate_source_indices(cd, od, idx, source_y as nat, source_x as nat),
            forall|k: int| 0 <= k < cd.len() ==> od.contains(#[trigger] cd[k]),
            in_bounds(ss, want),
            ss.len() == dims@.len(),
            strides_of(source_strides@, ss),
            ravel(ss, want) < size_of_shape(ss) <= usize::MAX,
            offset + ravel(ss.skip(axis as int), want.skip(axis as int)) == ravel(ss, want),
        decreases dims@.len() - axis,
    {
        let dim = dims[axis].as_str();
        proof {
            assert(dim@ == cd[axis as int]);
            assert(ss.skip(axis as int).drop_first() =~= ss.skip(axis + 1));
            assert(want.skip(axis as int).drop_first() =~= want.skip(axis + 1));
            assert(want.skip(axis as int)[0] == want[axis as int]);
            assert(od.contains(cd[axis as int]));
            lemma_position_in(od, dim@);
        }
        let index: usize = if same_text(dim, "y") {
            source_y
        } else if same_text(dim, "x") {
            source_x
        } else {
            match coordinate_dim_index(output_dims, dim) {
                Some(output_axis) => output_indices[output_axis],
                None => 0,
            }
        };
        assert(index == want[axis as int]);
        offset = offset + index * source_strides[axis];
        axis = axis + 1;
    }
    offset
}

/// The coordinate of the sampled array.
fn sample_coordinate_from_linesample<T: Copy>(
    coord: &Coordinate,
    source: &DataArray<T>,
    output_shape: &Vec<usize>,
    linesample: &LineSampleGrid,
) -> (r: Result<Coordinate>)
    requires
        can_sample_coordinate(coord@, source@, linesample@),
        output_shape@ == sampled_shape(source@, linesample@),
    ensures
        is_spatial(coord@.dims) && strides_overflow(
            coordinate_shape_of(coord@.dims, source@.dims, source@.shape),
        ) ==> is_invalid(r, "stride size overflows usize"@),
        !(is_spatial(coord@.dims) && strides_overflow(
            coordinate_shape_of(coord@.dims, source@.dims, source@.shape),
        )) ==> r is Ok,
        r is Ok ==> r->Ok_0@ == sampled_coordinate(coord@, source@, linesample@),
{
    let ghost a = source@;
    let ghost g = linesample@;
    let ghost c = coord@;
    if !spatial_dims(coord.dims()) {
        return Ok(coord.duplicate());
    }
    let output_dims = sampled_coordinate_dims(coord.dims(), source.dims());
    let ghost od = sampled_dims(c.dims, a.dims);
    proof {
        lemma_axes(a);
        lemma_sampled_dims(c.dims, a.dims);
        lemma_sampled_size(c.dims, a.dims, output_shape@, a.dims.len() as int);
        assert(a.dims.take(a.dims.len() as int) =~= a.dims);
        assert(output_shape@.take(a.dims.len() as int) =~= output_shape@);
        assert forall|k: int| 0 <= k < od.len() implies a.dims.contains(#[trigger] od[k]) by {
            assert(od.contains(od[k]));
        }
    }
    let coord_source_shape = match coordinate_shape(coord.dims(), source.dims(), source.shape_nd()) {
        Ok(v) => v,
        Err(e) => {
            return Err(e);
        },
    };
    let coord_output_shape = match coordinate_shape(&output_dims, source.dims(), output_shape) {
        Ok(v) => v,
        Err(e) => {
            return Err(e);
        },
    };
    let ghost ss = coordinate_shape_of(c.dims, a.dims, a.shape);
    let ghost os = coordinate_shape_of(od, a.dims, output_shape@);
    proof {
        assert forall|k: int| 0 <= k < os.len() implies os[k] > 0 by {
            lemma_position_in(a.dims, od[k]);
            assert(a.dims.contains(od[k]));
            assert(output_shape@[position_in(a.dims, od[k]) as int] > 0);
        }
        lemma_no_overflow(os);
    }
    let coord_source_strides = match row_major_strides(coord_source_shape.as_slice()) {
        Ok(v) => v,
        Err(e) => {
            return Err(e);
        },
    };
    let coord_output_strides = match row_major_strides(coord_output_shape.as_slice()) {
        Ok(v) => v,
        Err(e) => {
            return Err(e);
        },
    };
    let coord_output_len = match checked_shape_size(coord_output_shape.as_slice()) {
        Ok(v) => v,
        Err(e) => {
            return Err(e);
        },
    };
    proof {
        assert(od.contains("y"@) && od.contains("x"@));
        lemma_position_in(od, "y"@);
        lemma_position_in(od, "x"@);
        lemma_position_in(a.dims, "y"@);
        lemma_position_in(a.dims, "x"@);
        lemma_plane_fits(a, g);
    }
    let y_axis: usize = match coordinate_dim_index(&output_dims, "y") {
        Some(axis) => axis,
        None => 0,
    };
    let x_axis: usize = match coordinate_dim_index(&output_dims, "x") {
        Some(axis) => axis,
        None => 0,
    };
    let source_yx = source.shape_yx();
    let (source_height, source_width) = match source_yx {
        Ok(p) => p,
        Err(e) => {
            return Err(e);
        },
    };
    let value_count: usize = coord.values().len();
    let mut values: Vec<F64> = Vec::new();
    let mut output_offset: usize = 0;
    while output_offset < coord_output_len
        invariant
            output_offset <= coord_output_len,
            value_count == size_of_shape(ss),
            a == source@,
            g == linesample@,
            c == coord@,
            can_sample_coordinate(c, a, g),
            od == sampled_dims(c.dims, a.dims),
            texts(output_dims@) == od,
            od.contains("y"@),
            od.contains("x"@),
            y_axis == position_in(od, "y"@),
            x_axis == position_in(od, "x"@),
            ss == coordinate_shape_of(c.dims, a.dims, a.shape),
            os == coordinate_shape_of(od, a.dims, output_shape@),
            output_shape@ == sampled_shape(a, g),
            coord_source_shape@ == ss,
            coord_output_shape@ == os,
            no_zero(os),
            coord_output_len == size_of_shape(os),
            strides_of(coord_source_strides@, ss),
            strides_of(coord_output_strides@, os),
            source_height == a.shape[y_axis_of(a)],
            source_width == a.shape[x_axis_of(a)],
            source_height * source_width <= usize::MAX,
            values@.len() == output_offset,
            forall|d: Seq<char>| #[trigger]
                od.contains(d) <==> a.dims.contains(d) && keeps_dim(c.dims, d),
            forall|o: int|
                0 <= o < output_offset ==> values@[o] == sampled_coordinate_value(
                    c,
                    a,
                    g,
                    o as nat,
                ),
        decreases coord_output_len - output_offset,
    {
        let output_indices = unravel_offset(
            output_offset,
            coord_output_shape.as_slice(),
            coord_output_strides.as_slice(),
        );
        let ghost idx = unravel(os, output_offset as nat);
        proof {
            lemma_ravel_unravel(os, output_offset as nat);
            lemma_axes(a);
            lemma_position_in(od, "y"@);
            lemma_position_in(od, "x"@);
            assert(output_indices@.map_values(|i: usize| i as nat) == idx);
            assert(output_indices@.len() == idx.len());
            assert forall|k: int| 0 <= k < idx.len() implies output_indices@[k] as nat
                == #[trigger] idx[k] by {
                assert(output_indices@.map_values(|i: usize| i as nat)[k] == output_indices@[k] as nat);
            }
            assert(os[y_axis as int] == g.height) by {
                assert(od[y_axis as int] == "y"@);
            }
            assert(os[x_axis as int] == g.width) by {
                assert(od[x_axis as int] == "x"@);
            }
        }
        let y_index: usize = output_indices[y_axis];
        let x_index: usize = output_indices[x_axis];
        proof {
            assert(idx[y_axis as int] < os[y_axis as int]);
            assert(idx[x_axis as int] < os[x_axis as int]);
            lemma_target_pixel(y_index as nat, x_index as nat, g.height as nat, g.width as nat);
        }
        let line_sample_offset: usize = y_index * linesample.width() + x_index;
        let row: isize = linesample.rows()[line_sample_offset];
        let col: isize = linesample.cols()[line_sample_offset];
        match valid_source_index(row, col, source_height, source_width) {
            None => {
                values.push(F64 { bits: NAN_BITS_64 });
            },
            Some(yx_index) => {
                proof {
                    lemma_pixel_parts(row as nat, col as nat, source_width as nat);
                }
                let source_y: usize = yx_index / source_width;
                let source_x: usize = yx_index % source_width;
                proof {
                    lemma_coordinate_indices(c, a, g, output_offset as nat, row as nat, col as nat);
                    assert forall|k: int| 0 <= k < c.dims.len() implies od.contains(
                        #[trigger] c.dims[k],
                    ) by {
                        assert(c.dims.contains(c.dims[k]));
                        assert(a.dims.contains(c.dims[k]));
                    }
                }
                let coord_source_offset: usize = coordinate_source_offset(
                    coord.dims(),
                    &output_dims,
                    &output_indices,
                    &coord_source_shape,
                    &coord_source_strides,
                    source_y,
                    source_x,
                );
                values.push(coord.values()[coord_source_offset]);
            },
        }
        output_offset = output_offset + 1;
    }
    let out = Coordinate::new(output_dims, values);
    assert(out@ =~= sampled_coordinate(c, a, g));
    Ok(out)
}

proof fn lemma_coordinate_indices<T>(
    c: CoordinateView,
    a: ArrayView<T>,
    g: LineSampleView,
    offset: nat,
    row: nat,
    col: nat,
)
    requires
        can_sample_coordinate(c, a, g),
        row < a.shape[y_axis_of(a)],
        col < a.shape[x_axis_of(a)],
    ensures
        in_bounds(
            coordinate_shape_of(c.dims, a.dims, a.shape),
            coordinate_source_indices(
                c.dims,
                sampled_dims(c.dims, a.dims),
                unravel(
                    coordinate_shape_of(sampled_dims(c.dims, a.dims), a.dims, sampled_shape(a, g)),
                    offset,
                ),
                row,
                col,
            ),
        ),
{
    let od = sampled_dims(c.dims, a.dims);
    let out = sampled_shape(a, g);
    let os = coordinate_shape_of(od, a.dims, out);
    let idx = unravel(os, offset);
    let ss = coordinate_shape_of(c.dims, a.dims, a.shape);
    let want = coordinate_source_indices(c.dims, od, idx, row, col);
    lemma_axes(a);
    lemma_sampled_dims(c.dims, a.dims);
    assert forall|k: int| 0 <= k < os.len() implies os[k] > 0 by {
        assert(od.contains(od[k]));
        lemma_position_in(a.dims, od[k]);
        assert(out[position_in(a.dims, od[k]) as int] > 0);
    }
    lemma_ravel_unravel(os, offset);
    assert forall|k: int| 0 <= k < ss.len() implies want[k] < ss[k] by {
        let d = c.dims[k];
        assert(c.dims.contains(d));
        assert(a.dims.contains(d));
        if d != "y"@ && d != "x"@ {
            assert(od.contains(d));
            lemma_position_in(od, d);
            lemma_position_in(a.dims, d);
            let p = position_in(od, d) as int;
            assert(idx[p] < os[p]);
            assert(od[p] == d);
            assert(out[position_in(a.dims, d) as int] == a.shape[position_in(a.dims, d) as int]);
        }
    }
}

/// A coordinate of the sampled array fits it.
proof fn lemma_sampled_fits<T>(c: CoordinateView, a: ArrayView<T>, g: LineSampleView)
    requires
        can_sample_coordinate(c, a, g),
    ensures
        fits(sampled_coordinate(c, a, g), a.dims, sampled_shape(a, g)),
{
    lemma_axes(a);
    let s = sampled_coordinate(c, a, g);
    if is_spatial(c.dims) {
        lemma_sampled_dims(c.dims, a.dims);
        assert forall|k: int| 0 <= k < s.dims.len() implies a.dims.contains(#[trigger] s.dims[k]) by {
            assert(s.dims.contains(s.dims[k]));
        }
    } else {
        assert(coordinate_shape_of(c.dims, a.dims, a.shape) =~= coordinate_shape_of(
            c.dims,
            a.dims,
            sampled_shape(a, g),
        )) by {
            assert forall|k: int| 0 <= k < c.dims.len() implies a.shape[position_in(
                a.dims,
                c.dims[k],
            ) as int] == sampled_shape(a, g)[position_in(a.dims, c.dims[k]) as int] by {
                assert(a.dims.contains(c.dims[k]));
                lemma_position_in(a.dims, c.dims[k]);
            }
        }
    }
}

/// The line, the sample and the missing flag of one target element, and the value
/// that it takes.
fn sample_element<T: Copy>(
    source: &DataArray<T>,
    linesample: &LineSampleGrid,
    output_shape: &Vec<usize>,
    output_strides: &Vec<usize>,
    source_strides: &Vec<usize>,
    y_axis: usize,
    x_axis: usize,
    fill_value: T,
    output_offset: usize,
) -> (r: (T, bool))
    requires
        source@.dims.contains("y"@),
        source@.dims.contains("x"@),
        y_axis == y_axis_of(source@),
        x_axis == x_axis_of(source@),
        output_shape@ == sampled_shape(source@, linesample@),
        no_zero(output_shape@),
        strides_of(output_strides@, output_shape@),
        strides_of(source_strides@, source@.shape),
    ensures
        r.0 == sampled_value(source@, linesample@, fill_value, output_offset as nat),
        r.1 == is_missing_sample(source@, linesample@, output_offset as nat),
{
    let ghost a = source@;
    let ghost g = linesample@;
    proof {
        use_type_invariant(source);
        use_type_invariant(linesample);
        lemma_axes(a);
        lemma_plane_fits(a, g);
        lemma_ravel_unravel(output_shape@, output_offset as nat);
        lemma_size_positive(output_shape@.skip(y_axis + 1));
        lemma_size_positive(output_shape@.skip(x_axis + 1));
    }
    let ghost idx = unravel(output_shape@, output_offset as nat);
    let source_height: usize = source.shape_nd()[y_axis];
    let source_width: usize = source.shape_nd()[x_axis];
    let y: usize = (output_offset / output_strides[y_axis]) % output_shape[y_axis];
    let x: usize = (output_offset / output_strides[x_axis]) % output_shape[x_axis];
    proof {
        assert(y == idx[y_axis as int]);
        assert(x == idx[x_axis as int]);
        assert(output_shape@[y_axis as int] == g.height);
        assert(output_shape@[x_axis as int] == g.width);
        lemma_target_pixel(y as nat, x as nat, g.height as nat, g.width as nat);
    }
    let line_sample_offset: usize = y * linesample.width() + x;
    let row: isize = linesample.rows()[line_sample_offset];
    let col: isize = linesample.cols()[line_sample_offset];
    match valid_source_index(row, col, source_height, source_width) {
        None => (fill_value, true),
        Some(yx_index) => {
            proof {
                lemma_pixel_parts(row as nat, col as nat, source_width as nat);
            }
            let index: usize = remap_output_to_source_offset(
                output_offset,
                output_shape.as_slice(),
                output_strides.as_slice(),
                source.shape_nd().as_slice(),
                source_strides.as_slice(),
                y_axis,
                x_axis,
                yx_index,
                source_width,
            );
            assert(picked(a, g, output_offset as nat) == Some(index as nat));
            let masked = match source.mask() {
                Some(mask) => match mask.is_masked(index) {
                    Some(m) => m,
                    None => false,
                },
                None => false,
            };
            if masked {
                (fill_value, true)
            } else {
                (source.values()[index], false)
            }
        },
    }
}

/// The error with which the sampling of an array is refused, if it is.
pub open spec fn sampling_error<T>(a: ArrayView<T>, g: LineSampleView) -> Option<ErrorView> {
    let out = sampled_shape(a, g);
    if !a.dims.contains("y"@) {
        Some(ErrorView::InvalidInput("line/sample source array is missing 'y' dimension"@))
    } else if !a.dims.contains("x"@) {
        Some(ErrorView::InvalidInput("line/sample source array is missing 'x' dimension"@))
    } else if size_of_shape(out.take(first_zero(out) as int)) > usize::MAX {
        Some(ErrorView::InvalidInput("shape size overflows usize"@))
    } else if !no_zero(out) {
        Some(ErrorView::InvalidInput("shape dimensions must be non-zero"@))
    } else if strides_overflow(a.shape) || coordinate_overflows(a) {
        Some(ErrorView::InvalidInput("stride size overflows usize"@))
    } else {
        None
    }
}

/// The outcome of the sampling of an array: its error, or the sampled array.
pub open spec fn sampling_outcome<T: Copy>(
    r: Result<DataArray<T>>,
    a: ArrayView<T>,
    g: LineSampleView,
    fill: T,
    mask_missing: bool,
) -> bool {
    match sampling_error(a, g) {
        Some(e) => fails_with(r, e),
        None => r is Ok && r->Ok_0@ == sampled_array(a, g, fill, mask_missing),
    }
}

/// Samples an array: each target pixel takes the values of the source pixel that its
/// line and sample name, for every position along the other axes. A target element
/// without a value gets the fill value, and is masked where `mask_missing` is set.
pub fn sample_array_from_linesample<T: Copy>(
    source: &DataArray<T>,
    linesample: &LineSampleGrid,
    fill_value: T,
    mask_missing: bool,
) -> (r: Result<DataArray<T>>)
    ensures
        sampling_outcome(r, source@, linesample@, fill_value, mask_missing),
{
    let ghost a = source@;
    let ghost g = linesample@;
    proof {
        use_type_invariant(source);
        use_type_invariant(linesample);
    }
    let y_axis: usize = match source.dim_index("y") {
        Some(axis) => axis,
        None => {
            return Err(
                RustySatError::invalid_input("line/sample source array is missing 'y' dimension"),
            );
        },
    };
    let x_axis: usize = match source.dim_index("x") {
        Some(axis) => axis,
        None => {
            return Err(
                RustySatError::invalid_input("line/sample source array is missing 'x' dimension"),
            );
        },
    };
    proof {
        lemma_axes(a);
    }
    let mut output_shape: Vec<usize> = copy_values(source.shape_nd());
    output_shape.set(y_axis, linesample.height());
    output_shape.set(x_axis, linesample.width());
    let ghost out = sampled_shape(a, g);
    assert(output_shape@ == out);
    let output_len: usize = match checked_shape_size(output_shape.as_slice()) {
        Ok(n) => n,
        Err(e) => {
            proof {
                if no_zero(out) {
                    crate::nd_utils::lemma_first_zero_of_no_zero(out);
                }
            }
            return Err(e);
        },
    };
    proof {
        crate::nd_utils::lemma_first_zero_of_no_zero(out);
        lemma_no_overflow(out);
    }
    let source_strides = match row_major_strides(source.shape_nd().as_slice()) {
        Ok(v) => v,
        Err(e) => {
            return Err(e);
        },
    };
    let output_strides = match row_major_strides(output_shape.as_slice()) {
        Ok(v) => v,
        Err(e) => {
            return Err(e);
        },
    };
    let mut output: Vec<T> = Vec::new();
    let mut flags: Vec<bool> = Vec::new();
    let mut output_offset: usize = 0;
    while output_offset < output_len
        invariant
            output_offset <= output_len,
            a == source@,
            g == linesample@,
            out == sampled_shape(a, g),
            output_shape@ == out,
            output_len == size_of_shape(out),
            no_zero(out),
            a.dims.contains("y"@),
            a.dims.contains("x"@),
            y_axis == y_axis_of(a),
            x_axis == x_axis_of(a),
            strides_of(output_strides@, out),
            strides_of(source_strides@, a.shape),
            output@.len() == output_offset,
            flags@.len() == output_offset,
            forall|o: int|
                0 <= o < output_offset ==> output@[o] == sampled_value(a, g, fill_value, o as nat),
            forall|o: int| 0 <= o < output_offset ==> flags@[o] == is_missing_sample(a, g, o as nat),
        decreases output_len - output_offset,
    {
        let (value, missing) = sample_element(
            source,
            linesample,
            &output_shape,
            &output_strides,
            &source_strides,
            y_axis,
            x_axis,
            fill_value,
            output_offset,
        );
        output.push(value);
        flags.push(missing);
        output_offset = output_offset + 1;
    }
    let dims = copy_texts(source.dims());
    let shape = copy_values(&output_shape);
    let mut array = match DataArray::from_vec_named(shape, dims, output) {
        Ok(v) => v,
        Err(e) => {
            assert(false);
            return Err(e);
        },
    };
    let ghost bare = array@;
    let coords = source.coords();
    let ghost keys = coords.keys();
    proof {
        use_type_invariant(coords);
    }
    let mut i: usize = 0;
    while i < coords.len()
        invariant
            i <= keys.len(),
            keys == coords.keys(),
            coords.inv(),
            a == source@,
            g == linesample@,
            out == sampled_shape(a, g),
            output_shape@ == out,
            no_zero(out),
            size_of_shape(out) <= usize::MAX,
            out.take(first_zero(out) as int) == out,
            array_ok(a),
            linesample_ok(g),
            a.dims.contains("y"@),
            a.dims.contains("x"@),
            coords@ == a.coords,
            array@.shape == out,
            array@.dims == a.dims,
            array@.values == bare.values,
            array@.mask == bare.mask,
            forall|k: Seq<char>| #[trigger]
                array@.coords.dom().contains(k) <==> exists|j: int|
                    0 <= j < i && #[trigger] keys[j] == k,
            forall|j: int|
                0 <= j < i ==> array@.coords[#[trigger] keys[j]] == sampled_coordinate(
                    a.coords[keys[j]],
                    a,
                    g,
                ),
            forall|j: int|
                0 <= j < i ==> !(is_spatial(a.coords[#[trigger] keys[j]].dims) && strides_overflow(
                    coordinate_shape_of(a.coords[keys[j]].dims, a.dims, a.shape),
                )),
        decreases keys.len() - i,
    {
        let name = coords.key_at(i);
        let coord = coords.value_at(i);
        proof {
            assert(a.coords.dom().contains(keys[i as int]));
            assert(fits(a.coords[keys[i as int]], a.dims, a.shape));
            lemma_sampled_fits(coord@, a, g);
        }
        let sampled = match sample_coordinate_from_linesample(
            coord,
            source,
            &output_shape,
            linesample,
        ) {
            Ok(c) => c,
            Err(e) => {
                assert(coordinate_overflows(a)) by {
                    assert(a.coords.dom().contains(keys[i as int]));
                }
                return Err(e);
            },
        };
        let ghost before = array@.coords;
        match array.set_coordinate(name.as_str(), sampled) {
            Ok(()) => {},
            Err(e) => {
                assert(false);
                return Err(e);
            },
        }
        proof {
            let k0 = keys[i as int];
            assert(array@.coords == before.insert(k0, sampled@));
            assert forall|k: Seq<char>| #[trigger]
                array@.coords.dom().contains(k) <==> exists|j: int|
                    0 <= j < i + 1 && #[trigger] keys[j] == k by {
                if before.dom().contains(k) {
                    let j = choose|j: int| 0 <= j < i && #[trigger] keys[j] == k;
                    assert(keys[j] == k);
                }
                if k == k0 {
                    assert(keys[i as int] == k);
                }
            }
            assert forall|j: int| 0 <= j < i + 1 implies array@.coords[#[trigger] keys[j]]
                == sampled_coordinate(a.coords[keys[j]], a, g) by {
                if j < i {
                    assert(crate::text::text_less(keys[j], keys[i as int]));
                    if keys[j] == k0 {
                        crate::text::lemma_text_less_irreflexive(k0);
                    }
                }
            }
        }
        i = i + 1;
    }
    proof {
        let target = a.coords.map_values(|c: CoordinateView| sampled_coordinate(c, a, g));
        assert forall|k: Seq<char>| a.coords.dom().contains(k) implies exists|j: int|
            0 <= j < keys.len() && #[trigger] keys[j] == k by {
            assert(keys.to_set().contains(k));
            let j = choose|j: int| 0 <= j < keys.len() && keys[j] == k;
            assert(keys[j] == k);
        }
        assert forall|k: Seq<char>| #[trigger] array@.coords.dom().contains(k)
            == target.dom().contains(k) by {
            if array@.coords.dom().contains(k) {
                let j = choose|j: int| 0 <= j < i && #[trigger] keys[j] == k;
                assert(keys.to_set().contains(keys[j]));
            }
        }
        assert forall|k: Seq<char>| target.dom().contains(k) implies array@.coords[k] == target[k] by {
            let j = choose|j: int| 0 <= j < keys.len() && #[trigger] keys[j] == k;
            assert(array@.coords[keys[j]] == sampled_coordinate(a.coords[keys[j]], a, g));
        }
        assert(array@.coords =~= target);
        assert(!coordinate_overflows(a)) by {
            if coordinate_overflows(a) {
                let k = choose|k: Seq<char>| #[trigger]
                    a.coords.dom().contains(k) && is_spatial(a.coords[k].dims) && strides_overflow(
                        coordinate_shape_of(a.coords[k].dims, a.dims, a.shape),
                    );
                let j = choose|j: int| 0 <= j < keys.len() && #[trigger] keys[j] == k;
                assert(keys[j] == k);
            }
        }
        assert(bare.values =~= sampled_array(a, g, fill_value, mask_missing).values);
    }
    if mask_missing {
        let ghost all = flags@;
        match array.set_mask(ValidityMask::from_masked_flags(flags)) {
            Ok(()) => {},
            Err(e) => {
                assert(false);
                return Err(e);
            },
        }
        assert(all =~= sampled_array(a, g, fill_value, mask_missing).mask->Some_0);
    }
    assert(array@ =~= sampled_array(a, g, fill_value, mask_missing));
    Ok(array)
}

/// Samples a grid of numbers of 64 bits.
pub fn sample_grid_from_linesample(
    source: &DataGrid,
    linesample: &LineSampleGrid,
    fill_value: F64,
    mask_missing: bool,
) -> (r: Result<DataGrid>)
    ensures
        sampling_outcome(r, source@, linesample@, fill_value, mask_missing),
{
    sample_array_from_linesample(source, linesample, fill_value, mask_missing)
}

/// Whether `r` is the error of a line/sample grid with these parts, or nothing is
/// wrong with them.
pub open spec fn grid_outcome<T>(
    r: Result<T>,
    height: usize,
    width: usize,
    rows: Seq<isize>,
    cols: Seq<isize>,
) -> bool {
    if height == 0 || width == 0 {
        is_invalid(r, "line/sample target shape must be non-zero"@)
    } else if height * width > usize::MAX {
        is_invalid(r, "line/sample target shape overflows usize"@)
    } else if rows.len() != height * width || cols.len() != height * width {
        is_invalid(
            r,
            "line/sample rows and cols must both have "@ + crate::text::decimal(
                (height * width) as nat,
            ) + " values"@,
        )
    } else {
        true
    }
}

fn copy_slice(list: &[isize]) -> (r: Vec<isize>)
    ensures
        r@ == list@,
{
    let mut out: Vec<isize> = Vec::new();
    let mut i: usize = 0;
    while i < list.len()
        invariant
            i <= list@.len(),
            out@ == list@.take(i as int),
        decreases list@.len() - i,
    {
        out.push(list[i]);
        assert(list@.take(i + 1) =~= list@.take(i as int).push(list@[i as int]));
        i = i + 1;
    }
    assert(list@.take(list@.len() as int) =~= list@);
    out
}

/// Samples a grid by line and sample numbers; pixels without a value get the fill
/// value.
pub fn get_image_from_linesample(
    rows: &[isize],
    cols: &[isize],
    target_height: usize,
    target_width: usize,
    source: &DataGrid,
    fill_value: F64,
) -> (r: Result<DataGrid>)
    ensures
        grid_outcome(r, target_height, target_width, rows@, cols@),
        target_height > 0 && target_width > 0 && rows@.len() == target_height * target_width
            && cols@.len() == target_height * target_width ==> sampling_outcome(
            r,
            source@,
            (LineSampleView { height: target_height, width: target_width, rows: rows@, cols: cols@ }),
            fill_value,
            false,
        ),
{
    match LineSampleGrid::new(target_height, target_width, copy_slice(rows), copy_slice(cols)) {
        Ok(linesample) => {
            proof {
                use_type_invariant(&linesample);
            }
            sample_grid_from_linesample(source, &linesample, fill_value, false)
        },
        Err(e) => Err(e),
    }
}

/// Samples a grid by line and sample numbers; pixels without a value are masked.
pub fn get_image_from_linesample_masked_missing(
    rows: &[isize],
    cols: &[isize],
    target_height: usize,
    target_width: usize,
    source: &DataGrid,
) -> (r: Result<DataGrid>)
    ensures
        grid_outcome(r, target_height, target_width, rows@, cols@),
        target_height > 0 && target_width > 0 && rows@.len() == target_height * target_width
            && cols@.len() == target_height * target_width ==> sampling_outcome(
            r,
            source@,
            (LineSampleView { height: target_height, width: target_width, rows: rows@, cols: cols@ }),
            F64 { bits: NAN_BITS_64 },
            true,
        ),
{
    match LineSampleGrid::new(target_height, target_width, copy_slice(rows), copy_slice(cols)) {
        Ok(linesample) => {
            proof {
                use_type_invariant(&linesample);
            }
            sample_grid_from_linesample(source, &linesample, F64 { bits: NAN_BITS_64 }, true)
        },
        Err(e) => Err(e),
    }
}

/// Whether `r` is the sampled array of any element type, or the obstacle.
pub open spec fn any_sampling_outcome(
    r: Result<AnyDataArray>,
    v: AnyArrayView,
    g: LineSampleView,
    fill: LineSampleFillValue,
    mask_missing: bool,
) -> bool {
    match v {
        AnyArrayView::F32(a) => if fill is F32 {
            match sampling_error(a, g) {
                Some(e) => fails_with(r, e),
                None => r is Ok && r->Ok_0@ == AnyArrayView::F32(
                    sampled_array(a, g, fill->F32_0, mask_missing),
                ),
            }
        } else {
            is_invalid(r, fill_type_text("f32"@))
        },
        AnyArrayView::F64(a) => if fill is F64 {
            match sampling_error(a, g) {
                Some(e) => fails_with(r, e),
                None => r is Ok && r->Ok_0@ == AnyArrayView::F64(
                    sampled_array(a, g, fill->F64_0, mask_missing),
                ),
            }
        } else {
            is_invalid(r, fill_type_text("f64"@))
        },
        AnyArrayView::U8(a) => if fill is U8 {
            match sampling_error(a, g) {
                Some(e) => fails_with(r, e),
                None => r is Ok && r->Ok_0@ == AnyArrayView::U8(
                    sampled_array(a, g, fill->U8_0, mask_missing),
                ),
            }
        } else {
            is_invalid(r, fill_type_text("u8"@))
        },
        AnyArrayView::U16(a) => if fill is U16 {
            match sampling_error(a, g) {
                Some(e) => fails_with(r, e),
                None => r is Ok && r->Ok_0@ == AnyArrayView::U16(
                    sampled_array(a, g, fill->U16_0, mask_missing),
                ),
            }
        } else {
            is_invalid(r, fill_type_text("u16"@))
        },
        AnyArrayView::I16(a) => if fill is I16 {
            match sampling_error(a, g) {
                Some(e) => fails_with(r, e),
                None => r is Ok && r->Ok_0@ == AnyArrayView::I16(
                    sampled_array(a, g, fill->I16_0, mask_missing),
                ),
            }
        } else {
            is_invalid(r, fill_type_text("i16"@))
        },
    }
}

/// Samples an array of any element type. The fill value must be of that type.
pub fn sample_any_from_linesample(
    source: &AnyDataArray,
    linesample: &LineSampleGrid,
    fill_value: LineSampleFillValue,
    mask_missing: bool,
) -> (r: Result<AnyDataArray>)
    ensures
        any_sampling_outcome(r, source@, linesample@, fill_value, mask_missing),
{
    match source {
        AnyDataArray::F32(array) => match fill_value.as_f32() {
            Ok(fill) => match sample_array_from_linesample(array, linesample, fill, mask_missing) {
                Ok(a) => Ok(AnyDataArray::F32(a)),
                Err(e) => Err(e),
            },
            Err(e) => Err(e),
        },
        AnyDataArray::F64(array) => match fill_value.as_f64() {
            Ok(fill) => match sample_array_from_linesample(array, linesample, fill, mask_missing) {
                Ok(a) => Ok(AnyDataArray::F64(a)),
                Err(e) => Err(e),
            },
            Err(e) => Err(e),
        },
        AnyDataArray::U8(array) => match fill_value.as_u8() {
            Ok(fill) => match sample_array_from_linesample(array, linesample, fill, mask_missing) {
                Ok(a) => Ok(AnyDataArray::U8(a)),
                Err(e) => Err(e),
            },
            Err(e) => Err(e),
        },
        AnyDataArray::U16(array) => match fill_value.as_u16() {
            Ok(fill) => match sample_array_from_linesample(array, linesample, fill, mask_missing) {
                Ok(a) => Ok(AnyDataArray::U16(a)),
                Err(e) => Err(e),
            },
            Err(e) => Err(e),
        },
        AnyDataArray::I16(array) => match fill_value.as_i16() {
            Ok(fill) => match sample_array_from_linesample(array, linesample, fill, mask_missing) {
                Ok(a) => Ok(AnyDataArray::I16(a)),
                Err(e) => Err(e),
            },
            Err(e) => Err(e),
        },
    }
}

/// Whether a grid names each pixel of a plane at its own place.
pub open spec fn names_each_pixel(g: LineSampleView) -> bool {
    forall|y: nat, x: nat|
        y < g.height && x < g.width ==> #[trigger] row_of(g, y, x) == y && col_of(g, y, x) == x
}

/// Sampling with a grid that names each pixel at its own place keeps the array: the shape
/// stays, every element that is not masked keeps its value, and what is masked is what
/// was masked.
pub proof fn lemma_sampling_keeps_array<T>(
    a: ArrayView<T>,
    g: LineSampleView,
    fill: T,
    offset: nat,
)
    requires
        array_ok(a),
        linesample_ok(g),
        a.dims.contains("y"@),
        a.dims.contains("x"@),
        no_zero(a.shape),
        g.height == a.shape[y_axis_of(a)],
        g.width == a.shape[x_axis_of(a)],
        names_each_pixel(g),
        offset < a.values.len(),
    ensures
        sampled_shape(a, g) == a.shape,
        is_missing_sample(a, g, offset) == masked_in(a.mask, offset as int),
        !masked_in(a.mask, offset as int) ==> sampled_value(a, g, fill, offset)
            == a.values[offset as int],
{
    let ya = y_axis_of(a);
    let xa = x_axis_of(a);
    lemma_position_in(a.dims, "y"@);
    lemma_position_in(a.dims, "x"@);
    lemma_y_is_not_x();
    assert(sampled_shape(a, g) =~= a.shape);
    lemma_ravel_unravel(a.shape, offset);
    let idx = unravel(a.shape, offset);
    let y = idx[ya];
    let x = idx[xa];
    assert(y < g.height && x < g.width);
    assert(row_of(g, y, x) == y && col_of(g, y, x) == x);
    assert(idx.update(ya, y).update(xa, x) =~= idx);
    assert(picked(a, g, offset) == Some(offset));
}

/// The lines and samples in the source of the pixels that `second` names in the plane that
/// `first` was sampled onto; both are -1 where `second` names none.
pub open spec fn composed(first: LineSampleView, second: LineSampleView) -> LineSampleView {
    let n = (second.height * second.width) as nat;
    LineSampleView {
        height: second.height,
        width: second.width,
        rows: Seq::new(
            n,
            |k: int|
                if names_pixel(second.rows[k], second.cols[k], first.height, first.width) {
                    row_of(first, second.rows[k] as nat, second.cols[k] as nat)
                } else {
                    -1isize
                },
        ),
        cols: Seq::new(
            n,
            |k: int|
                if names_pixel(second.rows[k], second.cols[k], first.height, first.width) {
                    col_of(first, second.rows[k] as nat, second.cols[k] as nat)
                } else {
                    -1isize
                },
        ),
    }
}

/// The element that is picked twice is the one that is picked once.
proof fn lemma_picked_twice<T>(
    a: ArrayView<T>,
    b: ArrayView<T>,
    first: LineSampleView,
    second: LineSampleView,
    offset: nat,
)
    requires
        array_ok(a),
        linesample_ok(first),
        linesample_ok(second),
        a.dims.contains("y"@),
        a.dims.contains("x"@),
        b.dims == a.dims,
        b.shape == sampled_shape(a, first),
        no_zero(sampled_shape(b, second)),
        offset < size_of_shape(sampled_shape(b, second)),
    ensures
        sampled_shape(b, second) == sampled_shape(a, composed(first, second)),
        picked(a, composed(first, second), offset) == match picked(b, second, offset) {
            Some(p) => picked(a, first, p),
            None => None,
        },
        picked(b, second, offset) matches Some(p) ==> p < size_of_shape(b.shape),
{
    let ya = y_axis_of(a);
    let xa = x_axis_of(a);
    let c = composed(first, second);
    lemma_axes(a);
    let shape = sampled_shape(b, second);
    assert(shape =~= sampled_shape(a, c));
    lemma_ravel_unravel(shape, offset);
    let idx = unravel(shape, offset);
    let y = idx[ya];
    let x = idx[xa];
    assert(shape[ya] == second.height && shape[xa] == second.width);
    lemma_target_pixel(y, x, second.height as nat, second.width as nat);
    let row = row_of(second, y, x);
    let col = col_of(second, y, x);
    assert(b.shape[ya] == first.height && b.shape[xa] == first.width);
    if names_pixel(row, col, first.height, first.width) {
        let named = source_indices(shape, offset, ya, xa, row as nat, col as nat);
        assert(in_bounds(b.shape, named)) by {
            assert forall|k: int| 0 <= k < b.shape.len() implies named[k] < b.shape[k] by {
                if k != ya && k != xa {
                    assert(shape[k] == b.shape[k]);
                }
            }
        }
        lemma_ravel_bounded(b.shape, named);
        lemma_unravel_ravel(b.shape, named);
        let p = ravel(b.shape, named);
        assert(picked(b, second, offset) == Some(p));
        let r = row_of(first, row as nat, col as nat);
        let l = col_of(first, row as nat, col as nat);
        assert(row_of(c, y, x) == r && col_of(c, y, x) == l);
        assert(unravel(b.shape, p) == named);
        assert(source_indices(b.shape, p, ya, xa, r as nat, l as nat) =~= source_indices(
            shape,
            offset,
            ya,
            xa,
            r as nat,
            l as nat,
        ));
    } else {
        assert(row_of(c, y, x) == -1);
    }
}

/// A dimension that a sampled coordinate has is kept when it is sampled again.
proof fn lemma_sampled_dims_again(coord_dims: Seq<Seq<char>>, all: Seq<Seq<char>>, n: int)
    requires
        all.no_duplicates(),
        0 <= n <= all.len(),
    ensures
        sampled_dims(sampled_dims(coord_dims, all), all.take(n)) == sampled_dims(
            coord_dims,
            all.take(n),
        ),
    decreases n,
{
    if n > 0 {
        let here = all.take(n);
        assert(here.drop_last() =~= all.take(n - 1));
        lemma_sampled_dims_again(coord_dims, all, n - 1);
        lemma_sampled_dims(coord_dims, all);
        assert(all.contains(here.last()));
        assert(keeps_dim(sampled_dims(coord_dims, all), here.last()) == keeps_dim(
            coord_dims,
            here.last(),
        ));
    }
}

/// The dimensions of a sampled coordinate: sampling keeps them, and the plane is among them.
proof fn lemma_plane_of_coordinate(coord_dims: Seq<Seq<char>>, dims: Seq<Seq<char>>)
    requires
        dims.no_duplicates(),
        dims.contains("y"@),
        dims.contains("x"@),
    ensures
        sampled_dims(sampled_dims(coord_dims, dims), dims) == sampled_dims(coord_dims, dims),
        is_spatial(sampled_dims(coord_dims, dims)),
        position_in(sampled_dims(coord_dims, dims), "y"@) < sampled_dims(coord_dims, dims).len(),
        position_in(sampled_dims(coord_dims, dims), "x"@) < sampled_dims(coord_dims, dims).len(),
{
    let kept = sampled_dims(coord_dims, dims);
    lemma_sampled_dims(coord_dims, dims);
    lemma_sampled_dims_again(coord_dims, dims, dims.len() as int);
    assert(dims.take(dims.len() as int) =~= dims);
    assert(kept.contains("y"@) && kept.contains("x"@));
    lemma_position_in(kept, "y"@);
    lemma_position_in(kept, "x"@);
    assert(kept[position_in(kept, "y"@) as int] == "y"@);
}

/// The indices along the other axes are kept where the plane is replaced twice.
proof fn lemma_indices_twice(
    coord_dims: Seq<Seq<char>>,
    kept: Seq<Seq<char>>,
    idx: Seq<nat>,
    row: nat,
    col: nat,
    r: nat,
    l: nat,
)
    requires
        forall|k: int| 0 <= k < coord_dims.len() ==> kept.contains(#[trigger] coord_dims[k]),
        kept.contains("y"@),
        kept.contains("x"@),
    ensures
        ({
            let named = coordinate_source_indices(kept, kept, idx, row, col);
            &&& named[position_in(kept, "y"@) as int] == row
            &&& named[position_in(kept, "x"@) as int] == col
            &&& coordinate_source_indices(coord_dims, kept, named, r, l)
                == coordinate_source_indices(coord_dims, kept, idx, r, l)
        }),
{
    let named = coordinate_source_indices(kept, kept, idx, row, col);
    lemma_position_in(kept, "y"@);
    lemma_position_in(kept, "x"@);
    lemma_y_is_not_x();
    assert forall|k: int| 0 <= k < coord_dims.len() && coord_dims[k] != "y"@ && coord_dims[k]
        != "x"@ implies named[position_in(kept, coord_dims[k]) as int] == idx[position_in(
        kept,
        coord_dims[k],
    ) as int] by {
        assert(kept.contains(coord_dims[k]));
        lemma_position_in(kept, coord_dims[k]);
    }
    assert(coordinate_source_indices(coord_dims, kept, named, r, l) =~= coordinate_source_indices(
        coord_dims,
        kept,
        idx,
        r,
        l,
    ));
}

/// A value of a coordinate that is sampled twice is that of the one that is sampled once.
#[verifier::spinoff_prover]
proof fn lemma_coordinate_value_twice<T>(
    coordinate: CoordinateView,
    a: ArrayView<T>,
    b: ArrayView<T>,
    first: LineSampleView,
    second: LineSampleView,
    offset: nat,
)
    requires
        can_sample_coordinate(coordinate, a, first),
        is_spatial(coordinate.dims),
        array_ok(b),
        linesample_ok(second),
        b.dims == a.dims,
        b.shape == sampled_shape(a, first),
        no_zero(sampled_shape(b, second)),
        size_of_shape(sampled_shape(b, second)) <= usize::MAX,
        fits(sampled_coordinate(coordinate, a, first), b.dims, b.shape),
        offset < size_of_shape(
            coordinate_shape_of(
                sampled_dims(coordinate.dims, a.dims),
                a.dims,
                sampled_shape(b, second),
            ),
        ),
    ensures
        sampled_coordinate_value(sampled_coordinate(coordinate, a, first), b, second, offset)
            == sampled_coordinate_value(coordinate, a, composed(first, second), offset),
{
    let c = composed(first, second);
    let once = sampled_coordinate(coordinate, a, first);
    let dims = sampled_dims(coordinate.dims, a.dims);
    lemma_axes(a);
    assert(sampled_shape(b, second) =~= sampled_shape(a, c));
    lemma_sampled_dims(coordinate.dims, a.dims);
    lemma_plane_of_coordinate(coordinate.dims, a.dims);
    lemma_position_in(dims, "y"@);
    lemma_position_in(dims, "x"@);
    let yp = position_in(dims, "y"@) as int;
    let xp = position_in(dims, "x"@) as int;
    let shape = coordinate_shape_of(dims, a.dims, sampled_shape(b, second));
    let idx = unravel(shape, offset);
    assert forall|k: int| 0 <= k < shape.len() implies shape[k] > 0 by {
        assert(dims.contains(dims[k]));
        lemma_position_in(a.dims, dims[k]);
    }
    lemma_ravel_unravel(shape, offset);
    let y = idx[yp];
    let x = idx[xp];
    assert(shape[yp] == second.height && shape[xp] == second.width);
    lemma_target_pixel(y, x, second.height as nat, second.width as nat);
    let row = row_of(second, y, x);
    let col = col_of(second, y, x);
    if names_pixel(row, col, first.height, first.width) {
        let inner = coordinate_shape_of(dims, b.dims, b.shape);
        let named = coordinate_source_indices(dims, dims, idx, row as nat, col as nat);
        lemma_coordinate_indices(once, b, second, offset, row as nat, col as nat);
        lemma_ravel_bounded(inner, named);
        lemma_unravel_ravel(inner, named);
        let p = ravel(inner, named);
        assert(once.values[p as int] == sampled_coordinate_value(coordinate, a, first, p));
        let r = row_of(first, row as nat, col as nat);
        let l = col_of(first, row as nat, col as nat);
        assert forall|k: int| 0 <= k < coordinate.dims.len() implies dims.contains(
            #[trigger] coordinate.dims[k],
        ) by {
            assert(coordinate.dims.contains(coordinate.dims[k]));
            assert(a.dims.contains(coordinate.dims[k]));
        }
        lemma_indices_twice(
            coordinate.dims,
            dims,
            idx,
            row as nat,
            col as nat,
            r as nat,
            l as nat,
        );
        assert(row_of(c, y, x) == r && col_of(c, y, x) == l);
    } else {
        assert(row_of(c, y, x) == -1);
    }
}

/// A coordinate that is sampled twice is the one that is sampled once.
proof fn lemma_coordinate_twice<T>(
    coordinate: CoordinateView,
    a: ArrayView<T>,
    b: ArrayView<T>,
    first: LineSampleView,
    second: LineSampleView,
)
    requires
        can_sample_coordinate(coordinate, a, first),
        array_ok(b),
        linesample_ok(second),
        b.dims == a.dims,
        b.shape == sampled_shape(a, first),
        no_zero(sampled_shape(b, second)),
        size_of_shape(sampled_shape(b, second)) <= usize::MAX,
        fits(sampled_coordinate(coordinate, a, first), b.dims, b.shape),
    ensures
        sampled_coordinate(sampled_coordinate(coordinate, a, first), b, second)
            == sampled_coordinate(coordinate, a, composed(first, second)),
{
    let c = composed(first, second);
    lemma_axes(a);
    assert(sampled_shape(b, second) =~= sampled_shape(a, c));
    if is_spatial(coordinate.dims) {
        lemma_plane_of_coordinate(coordinate.dims, a.dims);
        let twice = sampled_coordinate(sampled_coordinate(coordinate, a, first), b, second);
        let direct = sampled_coordinate(coordinate, a, c);
        assert forall|o: int| 0 <= o < twice.values.len() implies twice.values[o]
            == direct.values[o] by {
            lemma_coordinate_value_twice(coordinate, a, b, first, second, o as nat);
        }
        assert(twice.values =~= direct.values);
    }
}

/// Sampling twice is sampling once through the composed grid: what is sampled through one
/// grid and then through another is the source, sampled through the composition of the two.
/// An element without a value in either step has the fill value, and it is masked where the
/// second step masks what is missing; for that the first step must have masked it too.
pub proof fn lemma_sampled_twice<T: Copy>(
    a: ArrayView<T>,
    first: LineSampleView,
    second: LineSampleView,
    fill: T,
    mask_first: bool,
    mask_second: bool,
    one: Result<DataArray<T>>,
    two: Result<DataArray<T>>,
    once: Result<DataArray<T>>,
)
    requires
        array_ok(a),
        linesample_ok(first),
        linesample_ok(second),
        sampling_outcome(one, a, first, fill, mask_first),
        one is Ok,
        sampling_outcome(two, one->Ok_0@, second, fill, mask_second),
        two is Ok,
        sampling_outcome(once, a, composed(first, second), fill, mask_second),
    ensures
        once is Ok,
        once->Ok_0@.shape == two->Ok_0@.shape,
        once->Ok_0@.dims == two->Ok_0@.dims,
        once->Ok_0@.values == two->Ok_0@.values,
        once->Ok_0@.coords == two->Ok_0@.coords,
        mask_first || !mask_second ==> once->Ok_0@ == two->Ok_0@,
{
    let b = one->Ok_0@;
    let c = composed(first, second);
    lemma_axes(a);
    let shape = sampled_shape(b, second);
    assert(shape =~= sampled_shape(a, c));
    crate::nd_utils::lemma_first_zero_of_no_zero(shape);
    crate::nd_utils::lemma_first_zero_of_no_zero(b.shape);
    let twice = two->Ok_0@;
    let direct = sampled_array(a, c, fill, mask_second);
    assert forall|o: int| 0 <= o < twice.values.len() implies twice.values[o] == direct.values[o] by {
        lemma_picked_twice(a, b, first, second, o as nat);
    }
    assert(twice.values =~= direct.values);
    if mask_second && mask_first {
        assert forall|o: int| 0 <= o < twice.values.len() implies twice.mask->Some_0[o]
            == direct.mask->Some_0[o] by {
            lemma_picked_twice(a, b, first, second, o as nat);
        }
        assert(twice.mask->Some_0 =~= direct.mask->Some_0);
    }
    assert forall|k: Seq<char>| #[trigger] b.coords.dom().contains(k) implies fits(
        b.coords[k],
        b.dims,
        b.shape,
    ) by {
        lemma_sampled_fits(a.coords[k], a, first);
    }
    assert(array_ok(b));
    assert forall|k: Seq<char>| #[trigger] a.coords.dom().contains(k) implies twice.coords[k]
        == direct.coords[k] by {
        lemma_sampled_fits(a.coords[k], a, first);
        lemma_coordinate_twice(a.coords[k], a, b, first, second);
    }
    assert(twice.coords =~= direct.coords);
}

/// The pixel of a source plane that a target pixel is sampled from, where its line and sample
/// are inside the plane.
pub open spec fn samples_from(
    g: LineSampleView,
    y: nat,
    x: nat,
    height: usize,
    width: usize,
    pixel: Option<(nat, nat)>,
) -> bool {
    let line = g.rows[(y * g.width + x) as int];
    let sample = g.cols[(y * g.width + x) as int];
    if line < 0 || line >= height || sample < 0 || sample >= width {
        pixel is None
    } else {
        pixel == Some((line as nat, sample as nat))
    }
}

/// Sampling by lines and samples: an element shows the source element at the line and the
/// sample of its pixel, and the fill value where these are outside the source or name a masked
/// element. `p` and `q` are the axes `y` and `x`.
pub proof fn lemma_sampled_element<T>(
    a: ArrayView<T>,
    g: LineSampleView,
    fill: T,
    mask_missing: bool,
    idx: Seq<nat>,
    p: int,
    q: int,
) -> (pixel: Option<(nat, nat)>)
    requires
        array_ok(a),
        linesample_ok(g),
        sampling_error(a, g) is None,
        0 <= p < a.dims.len() && a.dims[p] == "y"@,
        0 <= q < a.dims.len() && a.dims[q] == "x"@,
        in_bounds(sampled_array(a, g, fill, mask_missing).shape, idx),
    ensures
        ({
            let out = sampled_array(a, g, fill, mask_missing);
            let o = ravel(out.shape, idx) as int;
            let at = ravel(a.shape, idx.update(p, pixel->Some_0.0).update(q, pixel->Some_0.1)) as int;
            let shown = pixel is Some && !(a.mask is Some && a.mask->Some_0[at]);
            &&& out.dims == a.dims
            &&& out.shape == a.shape.update(p, g.height).update(q, g.width)
            &&& 0 <= o < out.values.len()
            &&& samples_from(g, idx[p], idx[q], a.shape[p], a.shape[q], pixel)
            &&& pixel is Some ==> 0 <= at < a.values.len()
            &&& out.values[o] == if shown {
                a.values[at]
            } else {
                fill
            }
            &&& if mask_missing {
                out.mask is Some && out.mask->Some_0[o] == !shown
            } else {
                out.mask is None
            }
        }),
{
    lemma_axes(a);
    assert(p == y_axis_of(a) && q == x_axis_of(a));
    let out = sampled_array(a, g, fill, mask_missing);
    lemma_unravel_ravel(out.shape, idx);
    lemma_ravel_bounded(out.shape, idx);
    let line = g.rows[(idx[p] * g.width + idx[q]) as int];
    let sample = g.cols[(idx[p] * g.width + idx[q]) as int];
    if line < 0 || line >= a.shape[p] || sample < 0 || sample >= a.shape[q] {
        None
    } else {
        let at = idx.update(p, line as nat).update(q, sample as nat);
        assert forall|k: int| 0 <= k < a.shape.len() implies at[k] < a.shape[k] by {
            if k != p && k != q {
                assert(out.shape[k] == a.shape[k]);
            }
        }
        lemma_ravel_bounded(a.shape, at);
        Some((line as nat, sample as nat))
    }
}

/// A coordinate that does not run along the plane is kept by sampling.
pub proof fn lemma_other_coordinates_kept<T>(
    a: ArrayView<T>,
    g: LineSampleView,
    fill: T,
    mask_missing: bool,
    name: Seq<char>,
)
    requires
        a.coords.contains_key(name),
        !a.coords[name].dims.contains("y"@),
        !a.coords[name].dims.contains("x"@),
    ensures
        sampled_array(a, g, fill, mask_missing).coords.contains_key(name),
        sampled_array(a, g, fill, mask_missing).coords[name] == a.coords[name],
{
    let c = a.coords[name];
    assert forall|k: int| 0 <= k < c.dims.len() implies #[trigger] c.dims[k] != "y"@ && c.dims[k]
        != "x"@ by {
        assert(c.dims.contains(c.dims[k]));
    }
}

/// The dimensions of a sampled coordinate along the plane: `y`, `x` and its own.
pub proof fn lemma_sampled_coordinate_dims<T>(
    a: ArrayView<T>,
    g: LineSampleView,
    fill: T,
    mask_missing: bool,
    name: Seq<char>,
    d: Seq<char>,
)
    requires
        array_ok(a),
        a.coords.contains_key(name),
        a.coords[name].dims.contains("y"@) || a.coords[name].dims.contains("x"@),
    ensures
        sampled_array(a, g, fill, mask_missing).coords[name].dims.contains(d) <==> a.dims.contains(d)
            && (d == "y"@ || d == "x"@ || a.coords[name].dims.contains(d)),
{
    let c = a.coords[name];
    let k = choose|k: int|
        0 <= k < c.dims.len() && (#[trigger] c.dims[k] == "y"@ || c.dims[k] == "x"@);
    assert(c.dims[k] == "y"@ || c.dims[k] == "x"@);
    assert(is_spatial(c.dims));
    lemma_sampled_dims(c.dims, a.dims);
}

/// Whether `at` are the indices in a coordinate with the dimensions `before` of the value at
/// `idx` of one with the dimensions `after`, at a line and a sample.
pub open spec fn leads_to(
    at: Seq<nat>,
    before: Seq<Seq<char>>,
    idx: Seq<nat>,
    after: Seq<Seq<char>>,
    line: nat,
    sample: nat,
) -> bool {
    forall|k: int|
        0 <= k < before.len() ==> #[trigger] at[k] == if before[k] == "y"@ {
            line
        } else if before[k] == "x"@ {
            sample
        } else {
            idx[position_in(after, before[k]) as int]
        }
}

/// A coordinate along the plane is sampled as the array is: its value is that of the source
/// coordinate at the line and the sample, and not a number where these are outside the source.
pub proof fn lemma_sampled_coordinate_value<T>(
    a: ArrayView<T>,
    g: LineSampleView,
    fill: T,
    mask_missing: bool,
    name: Seq<char>,
    idx: Seq<nat>,
) -> (out: (Option<(nat, nat)>, Seq<nat>))
    requires
        array_ok(a),
        linesample_ok(g),
        sampling_error(a, g) is None,
        a.coords.contains_key(name),
        a.coords[name].dims.contains("y"@) || a.coords[name].dims.contains("x"@),
        in_bounds(
            coordinate_shape_of(
                sampled_array(a, g, fill, mask_missing).coords[name].dims,
                a.dims,
                sampled_array(a, g, fill, mask_missing).shape,
            ),
            idx,
        ),
    ensures
        ({
            let before = a.coords[name];
            let after = sampled_array(a, g, fill, mask_missing).coords[name];
            let shape = coordinate_shape_of(
                after.dims,
                a.dims,
                sampled_array(a, g, fill, mask_missing).shape,
            );
            let (pixel, at) = out;
            let o = ravel(shape, idx) as int;
            &&& 0 <= o < after.values.len()
            &&& samples_from(
                g,
                idx[position_in(after.dims, "y"@) as int],
                idx[position_in(after.dims, "x"@) as int],
                size_along(a, "y"@),
                size_along(a, "x"@),
                pixel,
            )
            &&& match pixel {
                None => after.values[o].bits == NAN_BITS_64,
                Some((line, sample)) => {
                    &&& in_bounds(coordinate_shape_of(before.dims, a.dims, a.shape), at)
                    &&& leads_to(at, before.dims, idx, after.dims, line, sample)
                    &&& after.values[o] == before.values[ravel(
                        coordinate_shape_of(before.dims, a.dims, a.shape),
                        at,
                    ) as int]
                },
            }
        }),
{
    let c = a.coords[name];
    let sampled = sampled_array(a, g, fill, mask_missing);
    let k = choose|k: int|
        0 <= k < c.dims.len() && (#[trigger] c.dims[k] == "y"@ || c.dims[k] == "x"@);
    assert(c.dims[k] == "y"@ || c.dims[k] == "x"@);
    assert(is_spatial(c.dims));
    let od = sampled_dims(c.dims, a.dims);
    let shape = coordinate_shape_of(od, a.dims, sampled.shape);
    lemma_unravel_ravel(shape, idx);
    lemma_ravel_bounded(shape, idx);
    let o = ravel(shape, idx);
    let at_pixel = idx[position_in(od, "y"@) as int] * g.width + idx[position_in(od, "x"@) as int];
    let line = g.rows[at_pixel as int];
    let sample = g.cols[at_pixel as int];
    if line < 0 || line >= size_along(a, "y"@) || sample < 0 || sample >= size_along(a, "x"@) {
        (None, idx)
    } else {
        let at = coordinate_source_indices(c.dims, od, idx, line as nat, sample as nat);
        assert(fits(c, a.dims, a.shape));
        lemma_first_zero_of_no_zero(sampled.shape);
        assert(sampled.shape.take(sampled.shape.len() as int) =~= sampled.shape);
        lemma_coordinate_indices(c, a, g, o, line as nat, sample as nat);
        (Some((line as nat, sample as nat)), at)
    }
}

} // verus!
