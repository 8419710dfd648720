//! The part of a data set that lies in a slice of its area.

use crate::area::{AreaDefinition, AreaView};
use crate::array::{
    any_array_ok, array_ok, coordinate_shape_of, fits, lemma_plane_size, lemma_y_is_not_x, AnyArrayView,
    AnyDataArray, ArrayView, Coordinate, CoordinateView, DataArray, ValidityMask,
};
use crate::assemble::{is_plane, lemma_axis_fits};
use crate::dataset::{described, Dataset, DatasetView};
use crate::error::{fails_with, is_invalid, ErrorView, Result, RustySatError};
use crate::nd_utils::size_of_shape;
use crate::number::F64;
use crate::slicer::{
    crop_outcome, crop_source_area_with_divisibility, AreaCrop, AreaSlice, SliceView,
};
use crate::text::{copy_texts, lemma_position_in, same_text};
use vstd::prelude::*;

verus! {

/// The pixels of a slice, row by row.
pub open spec fn slice_values<T>(values: Seq<T>, width: int, s: SliceView) -> Seq<T> {
    let across = s.x.1 - s.x.0;
    let down = s.y.1 - s.y.0;
    Seq::new(
        (down * across) as nat,
        |t: int| values[(s.y.0 + t / across) * width + s.x.0 + t % across],
    )
}

/// Whether a slice lies in a plane.
pub open spec fn within_plane(s: SliceView, height: int, width: int) -> bool {
    s.x.0 < s.x.1 && s.y.0 < s.y.1 && s.x.1 <= width && s.y.1 <= height
}

/// A slice with its columns and rows exchanged.
pub open spec fn turned(s: SliceView) -> SliceView {
    SliceView { x: s.y, y: s.x }
}

/// The part of a coordinate that lies in a slice of a plane.
pub open spec fn sliced_coordinate(
    c: CoordinateView,
    height: usize,
    width: usize,
    s: SliceView,
) -> CoordinateView {
    CoordinateView {
        dims: c.dims,
        values: if c.dims.len() == 0 {
            c.values
        } else if c.dims.len() == 1 {
            if c.dims[0] == "y"@ {
                c.values.subrange(s.y.0 as int, s.y.1 as int)
            } else {
                c.values.subrange(s.x.0 as int, s.x.1 as int)
            }
        } else {
            if c.dims[0] == "y"@ {
                slice_values(c.values, width as int, s)
            } else {
                slice_values(c.values, height as int, turned(s))
            }
        },
    }
}

/// The part of a plane that lies in a slice.
pub open spec fn sliced_plane<T>(a: ArrayView<T>, s: SliceView) -> ArrayView<T> {
    let height = a.shape[0];
    let width = a.shape[1];
    ArrayView {
        shape: seq![(s.y.1 - s.y.0) as usize, (s.x.1 - s.x.0) as usize],
        dims: a.dims,
        values: slice_values(a.values, width as int, s),
        mask: match a.mask {
            Some(m) => Some(slice_values(m, width as int, s)),
            None => None,
        },
        coords: a.coords.map_values(|c: CoordinateView| sliced_coordinate(c, height, width, s)),
    }
}

proof fn lemma_slice_index(t: int, s: SliceView, height: int, width: int)
    requires
        within_plane(s, height, width),
        0 <= t < (s.y.1 - s.y.0) * (s.x.1 - s.x.0),
    ensures
        0 <= t / (s.x.1 - s.x.0) < s.y.1 - s.y.0,
        0 <= t % (s.x.1 - s.x.0) < s.x.1 - s.x.0,
        0 <= (s.y.0 + t / (s.x.1 - s.x.0)) * width,
        (s.y.0 + t / (s.x.1 - s.x.0)) * width + s.x.0 + t % (s.x.1 - s.x.0) < height * width,
{
    let across = s.x.1 - s.x.0;
    let down = s.y.1 - s.y.0;
    let q = t / across;
    let m = t % across;
    assert(0 <= q < down && 0 <= m < across) by (nonlinear_arith)
        requires
            0 <= t < down * across,
            across > 0,
            q == t / across,
            m == t % across,
    ;
    let y = s.y.0 + q;
    let x = s.x.0 + m;
    assert(0 <= y * width && y * width + x < height * width) by (nonlinear_arith)
        requires
            0 <= y < height,
            0 <= x < width,
    ;
}

/// The pixels of a slice, row by row.
fn cut_values<T: Copy>(values: &Vec<T>, height: usize, width: usize, x: (usize, usize), y: (
    usize,
    usize,
)) -> (r: Vec<T>)
    requires
        values@.len() == height * width,
        within_plane(SliceView { x, y }, height as int, width as int),
    ensures
        r@ == slice_values(values@, width as int, SliceView { x, y }),
{
    let ghost s = SliceView { x, y };
    let _len: usize = values.len();
    let across: usize = x.1 - x.0;
    let down: usize = y.1 - y.0;
    proof {
        assert(down * across <= height * width) by (nonlinear_arith)
            requires
                down <= height,
                across <= width,
        ;
    }
    let size: usize = down * across;
    let mut r: Vec<T> = Vec::new();
    let mut t: usize = 0;
    while t < size
        invariant
            t <= size,
            size == down * across,
            across == x.1 - x.0,
            down == y.1 - y.0,
            s == (SliceView { x, y }),
            values@.len() == height * width,
            height * width <= usize::MAX,
            within_plane(s, height as int, width as int),
            r@.len() == t,
            forall|u: int|
                0 <= u < t ==> #[trigger] r@[u] == values@[(s.y.0 + u / (across as int)) * width
                    + s.x.0 + u % (across as int)],
        decreases size - t,
    {
        proof {
            lemma_slice_index(t as int, s, height as int, width as int);
        }
        r.push(values[(y.0 + t / across) * width + x.0 + t % across]);
        t = t + 1;
    }
    assert(r@ =~= slice_values(values@, width as int, s));
    r
}

/// The values of a range.
fn cut_range(values: &Vec<F64>, from: usize, to: usize) -> (r: Vec<F64>)
    requires
        from <= to <= values@.len(),
    ensures
        r@ == values@.subrange(from as int, to as int),
{
    let mut r: Vec<F64> = Vec::new();
    let mut i: usize = from;
    while i < to
        invariant
            from <= i <= to,
            to <= values@.len(),
            r@ == values@.subrange(from as int, i as int),
        decreases to - i,
    {
        r.push(values[i]);
        i = i + 1;
        assert(r@ =~= values@.subrange(from as int, i as int));
    }
    r
}

/// What the dimensions of a coordinate of a plane can be, and how many values it has.
proof fn lemma_plane_coordinate(c: CoordinateView, height: usize, width: usize)
    requires
        fits(c, seq!["y"@, "x"@], seq![height, width]),
    ensures
        c.dims.len() <= 2,
        c.dims.len() == 1 ==> (c.dims[0] == "y"@ && c.values.len() == height) || (c.dims[0] == "x"@
            && c.values.len() == width),
        c.dims.len() == 2 ==> (c.dims[0] == "y"@ && c.dims[1] == "x"@ && c.values.len() == height
            * width) || (c.dims[0] == "x"@ && c.dims[1] == "y"@ && c.values.len() == width
            * height),
{
    lemma_y_is_not_x();
    let dims = seq!["y"@, "x"@];
    let shape = seq![height, width];
    assert(dims[0] == "y"@ && dims[1] == "x"@);
    lemma_position_in(dims, "y"@);
    lemma_position_in(dims, "x"@);
    let sizes = coordinate_shape_of(c.dims, dims, shape);
    assert forall|k: int| 0 <= k < c.dims.len() implies #[trigger] c.dims[k] == "y"@ || c.dims[k]
        == "x"@ by {
        assert(dims.contains(c.dims[k]));
    }
    if c.dims.len() > 2 {
        assert(c.dims[0] != c.dims[1] && c.dims[1] != c.dims[2] && c.dims[0] != c.dims[2]);
    }
    if c.dims.len() == 1 {
        assert(c.dims[0] == "y"@ || c.dims[0] == "x"@);
        reveal_with_fuel(size_of_shape, 2);
        assert(sizes.drop_first().len() == 0);
    }
    if c.dims.len() == 2 {
        assert(c.dims[0] != c.dims[1]);
        assert(c.dims[0] == "y"@ || c.dims[0] == "x"@);
        assert(c.dims[1] == "y"@ || c.dims[1] == "x"@);
        if c.dims[0] == "y"@ {
            assert(sizes =~= seq![height, width]);
            lemma_plane_size(height, width);
        } else {
            assert(sizes =~= seq![width, height]);
            lemma_plane_size(width, height);
        }
    }
}

/// The part of a coordinate fits the part of the plane.
proof fn lemma_sliced_fits(c: CoordinateView, height: usize, width: usize, s: SliceView)
    requires
        fits(c, seq!["y"@, "x"@], seq![height, width]),
        within_plane(s, height as int, width as int),
    ensures
        fits(
            sliced_coordinate(c, height, width, s),
            seq!["y"@, "x"@],
            seq![(s.y.1 - s.y.0) as usize, (s.x.1 - s.x.0) as usize],
        ),
{
    lemma_plane_coordinate(c, height, width);
    lemma_y_is_not_x();
    let dims = seq!["y"@, "x"@];
    let h = (s.y.1 - s.y.0) as usize;
    let w = (s.x.1 - s.x.0) as usize;
    let shape = seq![h, w];
    assert(dims[0] == "y"@ && dims[1] == "x"@);
    lemma_position_in(dims, "y"@);
    lemma_position_in(dims, "x"@);
    let out = sliced_coordinate(c, height, width, s);
    if c.dims.len() == 0 {
        let before = coordinate_shape_of(c.dims, dims, seq![height, width]);
        assert(coordinate_shape_of(c.dims, dims, shape) =~= before);
    } else if c.dims.len() == 1 {
        assert(c.dims =~= seq![c.dims[0]]);
        lemma_axis_fits(c.dims[0], out.values, dims, shape);
    } else {
        let sizes = coordinate_shape_of(c.dims, dims, shape);
        if c.dims[0] == "y"@ {
            assert(sizes =~= seq![h, w]);
            lemma_plane_size(h, w);
        } else {
            assert(sizes =~= seq![w, h]);
            lemma_plane_size(w, h);
        }
    }
}

/// The part of a coordinate that lies in a slice of a plane.
fn slice_coordinate(c: &Coordinate, height: usize, width: usize, x: (usize, usize), y: (
    usize,
    usize,
)) -> (r: Coordinate)
    requires
        fits(c@, seq!["y"@, "x"@], seq![height, width]),
        within_plane(SliceView { x, y }, height as int, width as int),
    ensures
        r@ == sliced_coordinate(c@, height, width, SliceView { x, y }),
{
    proof {
        lemma_plane_coordinate(c@, height, width);
        lemma_y_is_not_x();
    }
    let dims = c.dims();
    let values = if dims.len() == 0 {
        crate::array::copy_values(c.values())
    } else {
        let along_y = same_text(dims[0].as_str(), "y");
        if dims.len() == 1 {
            if along_y {
                cut_range(c.values(), y.0, y.1)
            } else {
                cut_range(c.values(), x.0, x.1)
            }
        } else if along_y {
            cut_values(c.values(), height, width, x, y)
        } else {
            cut_values(c.values(), width, height, y, x)
        }
    };
    Coordinate::new(copy_texts(dims), values)
}

/// The part of a plane that lies in a slice.
pub fn slice_plane<T: Copy>(source: &DataArray<T>, slices: &AreaSlice) -> (r: Result<DataArray<T>>)
    requires
        is_plane(source@),
    ensures
        if slices@.x.1 > source@.shape[1] || slices@.y.1 > source@.shape[0] {
            is_invalid(r, "area slices exceed source shape"@)
        } else {
            r is Ok && r->Ok_0@ == sliced_plane(source@, slices@)
        },
{
    proof {
        use_type_invariant(source);
        use_type_invariant(slices);
        lemma_plane_size(source@.shape[0], source@.shape[1]);
        assert(source@.shape =~= seq![source@.shape[0], source@.shape[1]]);
        assert(source@.dims =~= seq!["y"@, "x"@]);
    }
    let height: usize = source.shape_nd()[0];
    let width: usize = source.shape_nd()[1];
    let xs = slices.x();
    let ys = slices.y();
    if xs.end > width || ys.end > height {
        return Err(RustySatError::invalid_input("area slices exceed source shape"));
    }
    let x: (usize, usize) = (xs.start, xs.end);
    let y: (usize, usize) = (ys.start, ys.end);
    let ghost s = slices@;
    let ghost a = source@;
    let values = cut_values(source.values(), height, width, x, y);
    let out = match DataArray::new(y.1 - y.0, x.1 - x.0, values) {
        Ok(out) => out,
        Err(e) => {
            return Err(e);
        },
    };
    let out = match source.mask() {
        Some(mask) => {
            let flags = cut_flags(mask, height, width, x, y);
            match out.with_mask(ValidityMask::from_masked_flags(flags)) {
                Ok(out) => out,
                Err(e) => {
                    return Err(e);
                },
            }
        },
        None => out,
    };
    let ghost start = out@;
    let coords = source.coords();
    let ghost keys = coords.keys();
    proof {
        use_type_invariant(coords);
    }
    let n: usize = coords.len();
    let mut out = out;
    let mut i: usize = 0;
    while i < n
        invariant
            i <= n,
            n == keys.len(),
            keys == coords.keys(),
            coords@ == a.coords,
            array_ok(a),
            a.dims == seq!["y"@, "x"@],
            a.shape == seq![height, width],
            s == (SliceView { x, y }),
            within_plane(s, height as int, width as int),
            out@.shape == start.shape,
            out@.dims == start.dims,
            start.dims == seq!["y"@, "x"@],
            start.shape == seq![(s.y.1 - s.y.0) as usize, (s.x.1 - s.x.0) as usize],
            out@.values == start.values,
            out@.mask == start.mask,
            forall|k: Seq<char>| #[trigger]
                out@.coords.dom().contains(k) ==> a.coords.dom().contains(k) && out@.coords[k]
                    == sliced_coordinate(a.coords[k], height, width, s),
            forall|j: int| 0 <= j < i ==> out@.coords.dom().contains(#[trigger] keys[j]),
        decreases n - i,
    {
        let name = coords.key_at(i);
        let coordinate = coords.value_at(i);
        proof {
            assert(a.coords.dom().contains(keys[i as int]));
            lemma_sliced_fits(coordinate@, height, width, s);
        }
        let part = slice_coordinate(coordinate, height, width, x, y);
        match out.set_coordinate(name.as_str(), part) {
            Ok(()) => {},
            Err(e) => {
                return Err(e);
            },
        }
        i = i + 1;
    }
    proof {
        let want = sliced_plane(a, s);
        assert forall|k: Seq<char>| a.coords.dom().contains(k) implies #[trigger]
        out@.coords.dom().contains(k) by {
            assert(keys.to_set().contains(k));
            let j = choose|j: int| 0 <= j < keys.len() && keys[j] == k;
            assert(out@.coords.dom().contains(keys[j]));
        }
        assert(out@.coords =~= want.coords);
        assert(out@ =~= want);
    }
    Ok(out)
}

fn cut_flags(mask: &ValidityMask, height: usize, width: usize, x: (usize, usize), y: (
    usize,
    usize,
)) -> (r: Vec<bool>)
    requires
        mask@.len() == height * width,
        within_plane(SliceView { x, y }, height as int, width as int),
    ensures
        r@ == slice_values(mask@, width as int, SliceView { x, y }),
{
    let mut flags: Vec<bool> = Vec::new();
    let n: usize = mask.len();
    let mut i: usize = 0;
    while i < n
        invariant
            i <= n,
            n == mask@.len(),
            flags@ == mask@.take(i as int),
        decreases n - i,
    {
        let flag = match mask.is_masked(i) {
            Some(b) => b,
            None => false,
        };
        flags.push(flag);
        i = i + 1;
        assert(flags@ =~= mask@.take(i as int));
    }
    assert(mask@.take(n as int) =~= mask@);
    cut_values(&flags, height, width, x, y)
}

/// Each pixel of a slice is the one at the same place of the whole plane.
pub proof fn lemma_slice_keeps_pixels<T>(a: ArrayView<T>, s: SliceView, y: int, x: int)
    requires
        a.shape.len() == 2,
        within_plane(s, a.shape[0] as int, a.shape[1] as int),
        s.y.0 <= y < s.y.1,
        s.x.0 <= x < s.x.1,
    ensures
        sliced_plane(a, s).values[(y - s.y.0) * (s.x.1 - s.x.0) + x - s.x.0] == a.values[y
            * a.shape[1] + x],
{
    let across = s.x.1 - s.x.0;
    let down = s.y.1 - s.y.0;
    let row = y - s.y.0;
    let column = x - s.x.0;
    let t = row * across + column;
    vstd::arithmetic::div_mod::lemma_fundamental_div_mod_converse(t, across, row, column);
    assert(0 <= t < down * across) by (nonlinear_arith)
        requires
            t == row * across + column,
            0 <= row < down,
            0 <= column < across,
    ;
}

/// The part of an array of any element type that lies in a slice.
pub open spec fn sliced_any(v: AnyArrayView, s: SliceView) -> AnyArrayView {
    match v {
        AnyArrayView::F32(a) => AnyArrayView::F32(sliced_plane(a, s)),
        AnyArrayView::F64(a) => AnyArrayView::F64(sliced_plane(a, s)),
        AnyArrayView::U8(a) => AnyArrayView::U8(sliced_plane(a, s)),
        AnyArrayView::U16(a) => AnyArrayView::U16(sliced_plane(a, s)),
        AnyArrayView::I16(a) => AnyArrayView::I16(sliced_plane(a, s)),
    }
}

/// The error for a data set that has no part in a slice, if it has none.
pub open spec fn slice_dataset_error(d: DatasetView, s: SliceView) -> Option<ErrorView> {
    match d.array {
        None => Some(ErrorView::InvalidInput("data reduction requires dataset array values"@)),
        Some(v) => if s.x.1 > v.shape()[1] || s.y.1 > v.shape()[0] {
            Some(ErrorView::InvalidInput("area slices exceed source shape"@))
        } else {
            None
        },
    }
}

/// Whether the array of a data set is a plane, where it has one.
pub open spec fn holds_plane(d: DatasetView) -> bool {
    d.array is Some ==> d.array->Some_0.dims() == seq!["y"@, "x"@]
}

/// The part of a data set that lies in a slice, with the descriptions of the whole.
pub fn slice_dataset_yx(dataset: &Dataset, slices: &AreaSlice) -> (r: Result<Dataset>)
    requires
        holds_plane(dataset@),
    ensures
        match slice_dataset_error(dataset@, slices@) {
            Some(e) => fails_with(r, e),
            None => r is Ok && r->Ok_0@ == described(
                dataset@,
                Some(sliced_any(dataset@.array->Some_0, slices@)),
            ),
        },
{
    let array = match dataset.array() {
        Some(a) => a,
        None => {
            return Err(
                RustySatError::invalid_input("data reduction requires dataset array values"),
            );
        },
    };
    let part = match array {
        AnyDataArray::F32(a) => match slice_plane(a, slices) {
            Ok(p) => AnyDataArray::F32(p),
            Err(e) => {
                return Err(e);
            },
        },
        AnyDataArray::F64(a) => match slice_plane(a, slices) {
            Ok(p) => AnyDataArray::F64(p),
            Err(e) => {
                return Err(e);
            },
        },
        AnyDataArray::U8(a) => match slice_plane(a, slices) {
            Ok(p) => AnyDataArray::U8(p),
            Err(e) => {
                return Err(e);
            },
        },
        AnyDataArray::U16(a) => match slice_plane(a, slices) {
            Ok(p) => AnyDataArray::U16(p),
            Err(e) => {
                return Err(e);
            },
        },
        AnyDataArray::I16(a) => match slice_plane(a, slices) {
            Ok(p) => AnyDataArray::I16(p),
            Err(e) => {
                return Err(e);
            },
        },
    };
    Ok(Dataset::with_descriptions_of(dataset, part))
}

/// Whether `r` is the part of a data set that a target covers and the area of the part,
/// or the first obstacle.
pub open spec fn reduction_outcome<
    P: Fn(String) -> Option<(F64, String)>,
    Z: Fn(F64, F64, usize) -> F64,
    C: Fn(F64, F64, F64) -> F64,
    R: Fn(F64, F64, F64) -> F64,
    H: Fn(F64) -> F64,
    A: Fn(F64, usize, F64) -> F64,
    B: Fn(F64, usize, F64) -> F64,
>(
    r: Result<(Dataset, AreaDefinition)>,
    d: DatasetView,
    source: AreaView,
    target: AreaView,
    factor: Option<usize>,
    read: P,
    pixel_size: Z,
    column: C,
    row: R,
    excess: H,
    offset: A,
    offset_down: B,
) -> bool {
    exists|crop: Result<AreaCrop>| #[trigger]
        crop_outcome(
            crop,
            source,
            target,
            factor,
            read,
            pixel_size,
            column,
            row,
            excess,
            offset,
            offset_down,
        ) && match crop {
            Err(e) => fails_with(r, e@),
            Ok(c) => match slice_dataset_error(d, c@.slices) {
                Some(e) => fails_with(r, e),
                None => r is Ok && r->Ok_0.1@ == c@.area && r->Ok_0.0@ == described(
                    d,
                    Some(sliced_any(d.array->Some_0, c@.slices)),
                ),
            },
        }
}

/// The part of a data set that a target covers, and the area of the part.
pub fn reduce_area_dataset_with_divisibility<
    P: Fn(String) -> Option<(F64, String)>,
    Z: Fn(F64, F64, usize) -> F64,
    C: Fn(F64, F64, F64) -> F64,
    R: Fn(F64, F64, F64) -> F64,
    H: Fn(F64) -> F64,
    A: Fn(F64, usize, F64) -> F64,
    B: Fn(F64, usize, F64) -> F64,
>(
    dataset: &Dataset,
    source: &AreaDefinition,
    target: &AreaDefinition,
    shape_divisible_by: Option<usize>,
    read: &P,
    pixel_size: &Z,
    column: &C,
    row: &R,
    excess: &H,
    offset: &A,
    offset_down: &B,
) -> (r: Result<(Dataset, AreaDefinition)>)
    requires
        holds_plane(dataset@),
        forall|s: String| #[trigger] read.requires((s,)),
        forall|a: F64, b: F64, n: usize| #[trigger] pixel_size.requires((a, b, n)),
        forall|a: F64, b: F64, c: F64| #[trigger] column.requires((a, b, c)),
        forall|a: F64, b: F64, c: F64| #[trigger] row.requires((a, b, c)),
        forall|v: F64| #[trigger] excess.requires((v,)),
        forall|a: F64, n: usize, b: F64| #[trigger] offset.requires((a, n, b)),
        forall|a: F64, n: usize, b: F64| #[trigger] offset_down.requires((a, n, b)),
    ensures
        reduction_outcome(
            r,
            dataset@,
            source@,
            target@,
            shape_divisible_by,
            *read,
            *pixel_size,
            *column,
            *row,
            *excess,
            *offset,
            *offset_down,
        ),
{
    let crop = crop_source_area_with_divisibility(
        source,
        target,
        shape_divisible_by,
        read,
        pixel_size,
        column,
        row,
        excess,
        offset,
        offset_down,
    );
    assert(crop_outcome(
        crop,
        source@,
        target@,
        shape_divisible_by,
        *read,
        *pixel_size,
        *column,
        *row,
        *excess,
        *offset,
        *offset_down,
    ));
    let (area, slices) = match crop {
        Ok(c) => c.into_parts(),
        Err(e) => {
            return Err(e);
        },
    };
    match slice_dataset_yx(dataset, &slices) {
        Ok(part) => Ok((part, area)),
        Err(e) => Err(e),
    }
}

/// Whether `out` is the part of a plane in a slice: each pixel of the slice keeps its value and
/// its flag, and its values of every coordinate.
pub open spec fn shows_part<T>(out: ArrayView<T>, a: ArrayView<T>, s: SliceView) -> bool {
    let (across, down) = (s.x.1 - s.x.0, s.y.1 - s.y.0);
    &&& out.dims == a.dims
    &&& out.shape == seq![down as usize, across as usize]
    &&& out.values.len() == down * across
    &&& out.mask is Some == a.mask is Some
    &&& out.coords.dom() == a.coords.dom()
    &&& forall|y: int, x: int|
        #![trigger out.values[(y - s.y.0) * across + x - s.x.0]]
        s.y.0 <= y < s.y.1 && s.x.0 <= x < s.x.1 ==> out.values[(y - s.y.0) * across + x - s.x.0]
            == a.values[y * a.shape[1] + x]
    &&& a.mask is Some ==> forall|y: int, x: int|
        #![trigger out.mask->Some_0[(y - s.y.0) * across + x - s.x.0]]
        s.y.0 <= y < s.y.1 && s.x.0 <= x < s.x.1 ==> out.mask->Some_0[(y - s.y.0) * across + x
            - s.x.0] == a.mask->Some_0[y * a.shape[1] + x]
    &&& forall|name: Seq<char>| #[trigger]
        a.coords.contains_key(name) ==> keeps_part_of_coordinate(
            out.coords[name],
            a.coords[name],
            a.shape[0] as int,
            a.shape[1] as int,
            s,
        )
}

/// Whether `out` is the part of a coordinate of a plane in a slice.
pub open spec fn keeps_part_of_coordinate(
    out: CoordinateView,
    c: CoordinateView,
    height: int,
    width: int,
    s: SliceView,
) -> bool {
    let (across, down) = (s.x.1 - s.x.0, s.y.1 - s.y.0);
    &&& out.dims == c.dims
    &&& c.dims == Seq::<Seq<char>>::empty() ==> out.values == c.values
    &&& c.dims == seq!["y"@] ==> out.values.len() == down && forall|y: int|
        #![trigger out.values[y - s.y.0]]
        s.y.0 <= y < s.y.1 ==> out.values[y - s.y.0] == c.values[y]
    &&& c.dims == seq!["x"@] ==> out.values.len() == across && forall|x: int|
        #![trigger out.values[x - s.x.0]]
        s.x.0 <= x < s.x.1 ==> out.values[x - s.x.0] == c.values[x]
    &&& c.dims == seq!["y"@, "x"@] ==> out.values.len() == down * across && forall|y: int, x: int|
        #![trigger out.values[(y - s.y.0) * across + x - s.x.0]]
        s.y.0 <= y < s.y.1 && s.x.0 <= x < s.x.1 ==> out.values[(y - s.y.0) * across + x - s.x.0]
            == c.values[y * width + x]
    &&& c.dims == seq!["x"@, "y"@] ==> out.values.len() == across * down && forall|y: int, x: int|
        #![trigger out.values[(x - s.x.0) * down + y - s.y.0]]
        s.y.0 <= y < s.y.1 && s.x.0 <= x < s.x.1 ==> out.values[(x - s.x.0) * down + y - s.y.0]
            == c.values[x * height + y]
}

proof fn lemma_sliced_value<T>(values: Seq<T>, width: int, s: SliceView, y: int, x: int)
    requires
        s.y.0 <= y < s.y.1,
        s.x.0 <= x < s.x.1,
    ensures
        slice_values(values, width, s).len() == (s.y.1 - s.y.0) * (s.x.1 - s.x.0),
        slice_values(values, width, s)[(y - s.y.0) * (s.x.1 - s.x.0) + x - s.x.0] == values[y * width
            + x],
{
    let across = s.x.1 - s.x.0;
    let down = s.y.1 - s.y.0;
    let row = y - s.y.0;
    let column = x - s.x.0;
    let t = row * across + column;
    vstd::arithmetic::div_mod::lemma_fundamental_div_mod_converse(t, across, row, column);
    assert(0 <= t < down * across) by (nonlinear_arith)
        requires
            t == row * across + column,
            0 <= row < down,
            0 <= column < across,
    ;
}

proof fn lemma_sliced_values<T>(values: Seq<T>, width: int, s: SliceView)
    requires
        s.y.0 < s.y.1,
        s.x.0 < s.x.1,
    ensures
        slice_values(values, width, s).len() == (s.y.1 - s.y.0) * (s.x.1 - s.x.0),
        forall|y: int, x: int|
            #![trigger slice_values(values, width, s)[(y - s.y.0) * (s.x.1 - s.x.0) + x - s.x.0]]
            s.y.0 <= y < s.y.1 && s.x.0 <= x < s.x.1 ==> slice_values(values, width, s)[(y - s.y.0)
                * (s.x.1 - s.x.0) + x - s.x.0] == values[y * width + x],
{
    lemma_sliced_value(values, width, s, s.y.0 as int, s.x.0 as int);
    assert forall|y: int, x: int|
        #![trigger slice_values(values, width, s)[(y - s.y.0) * (s.x.1 - s.x.0) + x - s.x.0]]
        s.y.0 <= y < s.y.1 && s.x.0 <= x < s.x.1 implies slice_values(values, width, s)[(y - s.y.0)
        * (s.x.1 - s.x.0) + x - s.x.0] == values[y * width + x] by {
        lemma_sliced_value(values, width, s, y, x);
    }
}

/// The part of a plane in a slice shows the pixels of the slice.
pub proof fn lemma_part_shown<T>(a: ArrayView<T>, s: SliceView)
    requires
        array_ok(a),
        is_plane(a),
        within_plane(s, a.shape[0] as int, a.shape[1] as int),
    ensures
        shows_part(sliced_plane(a, s), a, s),
{
    let out = sliced_plane(a, s);
    let (h, w) = (a.shape[0], a.shape[1]);
    lemma_sliced_values(a.values, w as int, s);
    if a.mask is Some {
        lemma_sliced_values(a.mask->Some_0, w as int, s);
    }
    lemma_y_is_not_x();
    assert(out.coords.dom() =~= a.coords.dom());
    assert forall|name: Seq<char>| #[trigger]
        a.coords.contains_key(name) implies keeps_part_of_coordinate(
        out.coords[name],
        a.coords[name],
        h as int,
        w as int,
        s,
    ) by {
        let c = a.coords[name];
        assert(out.coords[name] == sliced_coordinate(c, h, w, s));
        assert(a.coords.dom().contains(name));
        assert(fits(c, a.dims, a.shape));
        assert(a.shape =~= seq![h, w]);
        lemma_plane_coordinate(c, h, w);
        lemma_sliced_values(c.values, w as int, s);
        lemma_sliced_values(c.values, h as int, turned(s));
        if c.dims == seq!["y"@] {
            assert(c.dims.len() == 1 && c.dims[0] == "y"@);
        }
        if c.dims == seq!["x"@] {
            assert(c.dims.len() == 1 && c.dims[0] == "x"@);
        }
        if c.dims == seq!["y"@, "x"@] {
            assert(c.dims.len() == 2 && c.dims[0] == "y"@);
        }
        if c.dims == seq!["x"@, "y"@] {
            assert(c.dims.len() == 2 && c.dims[0] == "x"@);
        }
    }
}

/// Whether an array of any element type is the part of one of that type in a slice.
pub open spec fn any_shows_part(out: AnyArrayView, v: AnyArrayView, s: SliceView) -> bool {
    match v {
        AnyArrayView::F32(a) => out is F32 && shows_part(out->F32_0, a, s),
        AnyArrayView::F64(a) => out is F64 && shows_part(out->F64_0, a, s),
        AnyArrayView::U8(a) => out is U8 && shows_part(out->U8_0, a, s),
        AnyArrayView::U16(a) => out is U16 && shows_part(out->U16_0, a, s),
        AnyArrayView::I16(a) => out is I16 && shows_part(out->I16_0, a, s),
    }
}

/// The reduction of a data set to what a target covers: it keeps its name and its
/// descriptions, its array is the part in the slice, and its area has the size of the slice.
pub proof fn lemma_reduced_dataset<
    P: Fn(String) -> Option<(F64, String)>,
    Z: Fn(F64, F64, usize) -> F64,
    C: Fn(F64, F64, F64) -> F64,
    R: Fn(F64, F64, F64) -> F64,
    H: Fn(F64) -> F64,
    A: Fn(F64, usize, F64) -> F64,
    B: Fn(F64, usize, F64) -> F64,
>(
    r: Result<(Dataset, AreaDefinition)>,
    d: DatasetView,
    source: AreaView,
    target: AreaView,
    factor: Option<usize>,
    read: P,
    pixel_size: Z,
    column: C,
    row: R,
    excess: H,
    offset: A,
    offset_down: B,
) -> (crop: AreaCrop)
    requires
        reduction_outcome(
            r,
            d,
            source,
            target,
            factor,
            read,
            pixel_size,
            column,
            row,
            excess,
            offset,
            offset_down,
        ),
        r is Ok,
        d.array is Some ==> any_array_ok(d.array->Some_0),
        holds_plane(d),
    ensures
        d.array is Some,
        crop_outcome(
            Ok(crop),
            source,
            target,
            factor,
            read,
            pixel_size,
            column,
            row,
            excess,
            offset,
            offset_down,
        ),
        r->Ok_0.1@ == crop@.area,
        r->Ok_0.0@.name == d.name,
        r->Ok_0.0@.metadata == d.metadata,
        forall|k: Seq<char>| #[trigger]
            d.attrs.contains_key(k) ==> r->Ok_0.0@.attrs.contains_key(k) && r->Ok_0.0@.attrs[k]
                == d.attrs[k],
        r->Ok_0.0@.array is Some,
        crop@.slices.x.0 < crop@.slices.x.1 && crop@.slices.y.0 < crop@.slices.y.1 ==> {
            &&& crop@.slices.x.1 <= d.array->Some_0.shape()[1]
            &&& crop@.slices.y.1 <= d.array->Some_0.shape()[0]
            &&& any_shows_part(r->Ok_0.0@.array->Some_0, d.array->Some_0, crop@.slices)
        },
{
    let crop = choose|crop: Result<AreaCrop>| #[trigger]
        crop_outcome(
            crop,
            source,
            target,
            factor,
            read,
            pixel_size,
            column,
            row,
            excess,
            offset,
            offset_down,
        ) && match crop {
            Err(e) => fails_with(r, e@),
            Ok(c) => match slice_dataset_error(d, c@.slices) {
                Some(e) => fails_with(r, e),
                None => r is Ok && r->Ok_0.1@ == c@.area && r->Ok_0.0@ == described(
                    d,
                    Some(sliced_any(d.array->Some_0, c@.slices)),
                ),
            },
        };
    let s = crop->Ok_0@.slices;
    if s.x.0 < s.x.1 && s.y.0 < s.y.1 {
        match d.array->Some_0 {
            AnyArrayView::F32(a) => lemma_part_shown(a, s),
            AnyArrayView::F64(a) => lemma_part_shown(a, s),
            AnyArrayView::U8(a) => lemma_part_shown(a, s),
            AnyArrayView::U16(a) => lemma_part_shown(a, s),
            AnyArrayView::I16(a) => lemma_part_shown(a, s),
        }
    }
    crop->Ok_0
}

} // verus!
