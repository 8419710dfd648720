//! Portable graymaps: a plane of numbers as a plane of grey levels.

use crate::array::{
    are_numbers, masked_in, AnyArrayView, AnyDataArray, ArrayView, DataGrid, ValidityMask,
};
use crate::assemble::is_plane;
use crate::bytes::{push_bytes, text_bytes};
use crate::chunks::{chunks_ok, lemma_pixel_in_chunk, ChunkGrid, ChunkView};
use crate::dataset::{Dataset, DatasetView};
use crate::error::{fails_with, is_invalid, ErrorView, Result, RustySatError};
use crate::float_tiff::{finite_min_max, flags_of, lemma_value_range, missing, value_range};
use crate::nd_utils::size_of_shape;
use crate::nearest::{
    chunk_place, grid_shape, is_part, lemma_pixel_of_part, part_agrees, plane_size, reads_chunk,
};
use crate::number::F64;
use crate::rounding::{apart, clamp_level, lemma_level_is_nearest, level_within};
use crate::text::{decimal, join5, same_text, size_text};
use crate::tiff_layout::lemma_tiles_along;
use vstd::prelude::*;
use vstd::utf8::encode_utf8;

verus! {

/// The grey level of white.
pub const WHITE: u16 = 255;

/// The bits of one.
const ONE: u64 = 0x3ff0_0000_0000_0000;

/// The numbers that become black and white.
#[derive(Clone, Copy, Debug, PartialEq)]
pub struct LinearScale {
    min: F64,
    max: F64,
}

impl View for LinearScale {
    type V = (F64, F64);

    closed spec fn view(&self) -> (F64, F64) {
        (self.min, self.max)
    }
}

/// The error for bounds that are not a scale, if they are not.
pub open spec fn scale_error(min: F64, max: F64) -> Option<ErrorView> {
    if !min.finite() || !max.finite() {
        Some(ErrorView::InvalidInput("PGM scale bounds must be finite"@))
    } else if max.at_most(min) {
        Some(ErrorView::InvalidInput("PGM scale minimum must be less than maximum"@))
    } else {
        None
    }
}

/// Whether `r` is the scale with these bounds, or the obstacle.
pub open spec fn scale_outcome(r: Result<LinearScale>, min: F64, max: F64) -> bool {
    match scale_error(min, max) {
        Some(e) => fails_with(r, e),
        None => r is Ok && r->Ok_0@ == (min, max),
    }
}

impl LinearScale {
    /// The bounds are finite and in order.
    #[verifier::type_invariant]
    pub open spec fn inv(&self) -> bool {
        scale_error(self@.0, self@.1) is None
    }

    pub fn new(min: F64, max: F64) -> (r: Result<Self>)
        ensures
            scale_outcome(r, min, max),
    {
        if !min.is_finite() || !max.is_finite() {
            return Err(RustySatError::invalid_input("PGM scale bounds must be finite"));
        }
        if max.le(min) {
            return Err(
                RustySatError::invalid_input("PGM scale minimum must be less than maximum"),
            );
        }
        Ok(LinearScale { min, max })
    }

    pub fn min(&self) -> (r: F64)
        ensures
            r == self@.0,
    {
        self.min
    }

    pub fn max(&self) -> (r: F64)
        ensures
            r == self@.1,
    {
        self.max
    }
}

/// Whether `r` is the scale for a range of values, or the obstacle: zero to one without
/// a value, and one more than the value where there is only one. `next` gives one more
/// than a number.
pub open spec fn range_outcome<N: Fn(F64) -> F64>(
    r: Result<LinearScale>,
    range: Option<(F64, F64)>,
    next: N,
) -> bool {
    match range {
        None => r is Ok && r->Ok_0@ == (F64 { bits: 0 }, F64 { bits: 0x3ff0_0000_0000_0000 }),
        Some((min, max)) => if min.same_number(max) {
            exists|above: F64| #[trigger] next.ensures((min,), above) && scale_outcome(r, min, above)
        } else {
            scale_outcome(r, min, max)
        },
    }
}

fn scale_for_range<N: Fn(F64) -> F64>(range: Option<(F64, F64)>, next: &N) -> (r: Result<
    LinearScale,
>)
    requires
        forall|v: F64| #[trigger] next.requires((v,)),
    ensures
        range_outcome(r, range, *next),
{
    match range {
        None => LinearScale::new(F64 { bits: 0 }, F64 { bits: ONE }),
        Some((min, max)) => {
            if min.equals(max) {
                let above = next(min);
                assert(next.ensures((min,), above));
                LinearScale::new(min, above)
            } else {
                LinearScale::new(min, max)
            }
        },
    }
}

/// Whether `scale` is the given scale, or that for a range of values where none is given.
pub open spec fn scale_chosen<N: Fn(F64) -> F64>(
    r: Result<LinearScale>,
    scale: Option<LinearScale>,
    range: Option<(F64, F64)>,
    next: N,
) -> bool {
    match scale {
        Some(s) => r is Ok && r->Ok_0@ == s@,
        None => range_outcome(r, range, next),
    }
}

/// The header of a graymap.
pub open spec fn pgm_header(height: usize, width: usize) -> Seq<u8> {
    encode_utf8(
        "P5\n"@ + decimal(width as nat) + " "@ + decimal(height as nat) + "\n255\n"@,
    )
}

fn header(height: usize, width: usize) -> (r: Vec<u8>)
    ensures
        r@ == pgm_header(height, width),
{
    let w = size_text(width);
    let h = size_text(height);
    let text = join5("P5\n", w.as_str(), " ", h.as_str(), "\n255\n");
    text_bytes(text.as_str())
}

/// Whether `out` is the grey level of a value: the fill level where it is masked or not
/// finite, else the level nearest to the place that `level` gives it between the bounds
/// of the scale, which are black and white.
pub open spec fn is_level<L: Fn(F64, F64, F64) -> F64>(
    masked: bool,
    value: F64,
    scale: (F64, F64),
    fill: u8,
    level: L,
    out: u8,
) -> bool {
    if masked || !value.finite() {
        out == fill
    } else {
        exists|place: F64| #[trigger]
            level.ensures((value, scale.0, scale.1), place) && out == level_within(place, WHITE)
    }
}

fn grey_level<L: Fn(F64, F64, F64) -> F64>(
    masked: bool,
    value: F64,
    scale: &LinearScale,
    fill_value: u8,
    level: &L,
) -> (r: u8)
    requires
        forall|v: F64, a: F64, b: F64| #[trigger] level.requires((v, a, b)),
    ensures
        is_level(masked, value, scale@, fill_value, *level, r),
{
    if masked || !value.is_finite() {
        fill_value
    } else {
        let place = level(value, scale.min, scale.max);
        assert(level.ensures((value, scale.min, scale.max), place));
        clamp_level(place, WHITE) as u8
    }
}

/// Whether `pixels` are the grey levels of a plane.
pub open spec fn are_levels<L: Fn(F64, F64, F64) -> F64>(
    values: Seq<F64>,
    mask: Option<Seq<bool>>,
    scale: (F64, F64),
    fill: u8,
    level: L,
    pixels: Seq<u8>,
) -> bool {
    &&& pixels.len() == values.len()
    &&& forall|i: int|
        0 <= i < pixels.len() ==> is_level(
            masked_in(mask, i),
            values[i],
            scale,
            fill,
            level,
            #[trigger] pixels[i],
        )
}

/// Whether `r` holds the grey levels of a plane of values, or is the obstacle.
pub open spec fn levels_outcome<L: Fn(F64, F64, F64) -> F64, N: Fn(F64) -> F64>(
    r: Result<Vec<u8>>,
    values: Seq<F64>,
    mask: Option<Seq<bool>>,
    scale: Option<LinearScale>,
    fill: u8,
    level: L,
    next: N,
) -> bool {
    exists|s: Result<LinearScale>| #[trigger]
        scale_chosen(s, scale, value_range(values, mask, values.len()), next) && match s {
            Err(e) => fails_with(r, e@),
            Ok(chosen) => r is Ok && are_levels(values, mask, chosen@, fill, level, r->Ok_0@),
        }
}

/// Whether `r` is the graymap of a plane of values, or the obstacle.
pub open spec fn pgm_outcome<L: Fn(F64, F64, F64) -> F64, N: Fn(F64) -> F64>(
    r: Result<Vec<u8>>,
    height: usize,
    width: usize,
    values: Seq<F64>,
    mask: Option<Seq<bool>>,
    scale: Option<LinearScale>,
    fill: u8,
    level: L,
    next: N,
) -> bool {
    exists|p: Result<Vec<u8>>| #[trigger]
        levels_outcome(p, values, mask, scale, fill, level, next) && match p {
            Err(e) => fails_with(r, e@),
            Ok(pixels) => r is Ok && r->Ok_0@ == pgm_header(height, width) + pixels@,
        }
}

/// The grey levels of a plane of values.
pub fn plane_levels<L: Fn(F64, F64, F64) -> F64, N: Fn(F64) -> F64>(
    values: &Vec<F64>,
    mask: Option<&ValidityMask>,
    scale: Option<LinearScale>,
    fill_value: u8,
    level: &L,
    next: &N,
) -> (r: Result<Vec<u8>>)
    requires
        mask is Some ==> mask->Some_0@.len() == values@.len(),
        forall|v: F64, a: F64, b: F64| #[trigger] level.requires((v, a, b)),
        forall|v: F64| #[trigger] next.requires((v,)),
    ensures
        levels_outcome(r, values@, flags_of(mask), scale, fill_value, *level, *next),
{
    let ghost flags = flags_of(mask);
    let s = match scale {
        Some(s) => Ok(s),
        None => scale_for_range(finite_min_max(values, mask), next),
    };
    assert(scale_chosen(s, scale, value_range(values@, flags, values@.len()), *next));
    let chosen = match s {
        Ok(c) => c,
        Err(e) => {
            return Err(e);
        },
    };
    let mut out: Vec<u8> = Vec::new();
    let mut i: usize = 0;
    while i < values.len()
        invariant
            i <= values@.len(),
            flags == flags_of(mask),
            mask is Some ==> mask->Some_0@.len() == values@.len(),
            forall|v: F64, a: F64, b: F64| #[trigger] level.requires((v, a, b)),
            out@.len() == i,
            forall|j: int|
                0 <= j < i ==> is_level(
                    masked_in(flags, j),
                    values@[j],
                    chosen@,
                    fill_value,
                    *level,
                    #[trigger] out@[j],
                ),
        decreases values@.len() - i,
    {
        let masked = match mask {
            Some(m) => match m.is_masked(i) {
                Some(b) => b,
                None => false,
            },
            None => false,
        };
        let pixel: u8 = grey_level(masked, values[i], &chosen, fill_value, level);
        assert(masked == masked_in(flags, i as int));
        out.push(pixel);
        i = i + 1;
    }
    assert(are_levels(values@, flags, chosen@, fill_value, *level, out@));
    Ok(out)
}

fn encode_pgm_values<L: Fn(F64, F64, F64) -> F64, N: Fn(F64) -> F64>(
    height: usize,
    width: usize,
    values: &Vec<F64>,
    mask: Option<&ValidityMask>,
    scale: Option<LinearScale>,
    fill_value: u8,
    level: &L,
    next: &N,
) -> (r: Result<Vec<u8>>)
    requires
        mask is Some ==> mask->Some_0@.len() == values@.len(),
        forall|v: F64, a: F64, b: F64| #[trigger] level.requires((v, a, b)),
        forall|v: F64| #[trigger] next.requires((v,)),
    ensures
        pgm_outcome(
            r,
            height,
            width,
            values@,
            flags_of(mask),
            scale,
            fill_value,
            *level,
            *next,
        ),
{
    let p = plane_levels(values, mask, scale, fill_value, level, next);
    assert(levels_outcome(p, values@, flags_of(mask), scale, fill_value, *level, *next));
    match p {
        Ok(pixels) => {
            let mut out = header(height, width);
            push_bytes(&mut out, &pixels);
            Ok(out)
        },
        Err(e) => Err(e),
    }
}

/// The graymap of a plane. `level` gives the grey level of a value between two bounds,
/// `next` one more than a number.
pub fn encode_pgm<L: Fn(F64, F64, F64) -> F64, N: Fn(F64) -> F64>(
    grid: &DataGrid,
    scale: Option<LinearScale>,
    fill_value: u8,
    level: &L,
    next: &N,
) -> (r: Result<Vec<u8>>)
    requires
        is_plane(grid@),
        forall|v: F64, a: F64, b: F64| #[trigger] level.requires((v, a, b)),
        forall|v: F64| #[trigger] next.requires((v,)),
    ensures
        pgm_outcome(
            r,
            plane_size(grid@).0,
            plane_size(grid@).1,
            grid@.values,
            grid@.mask,
            scale,
            fill_value,
            *level,
            *next,
        ),
{
    proof {
        use_type_invariant(grid);
    }
    let (height, width) = grid_shape(grid);
    encode_pgm_values(
        height,
        width,
        grid.values(),
        grid.mask(),
        scale,
        fill_value,
        level,
        next,
    )
}

/// The text of the error for an array that is not a plane.
pub open spec fn not_a_plane() -> Seq<char> {
    "array dimensions do not match expected [\"y\", \"x\"]"@
}

/// Whether the dimensions of an array are those of a plane.
pub open spec fn plane_dims(v: AnyArrayView) -> bool {
    v.dims() == seq!["y"@, "x"@]
}

/// Whether `r` is the graymap of the values of an array, or the first obstacle.
pub open spec fn array_outcome<L: Fn(F64, F64, F64) -> F64, N: Fn(F64) -> F64>(
    r: Result<Vec<u8>>,
    v: AnyArrayView,
    scale: Option<LinearScale>,
    fill: u8,
    level: L,
    next: N,
) -> bool {
    if !plane_dims(v) {
        is_invalid(r, not_a_plane())
    } else {
        exists|numbers: Seq<F64>| #[trigger]
            are_numbers(v, numbers) && pgm_outcome(
                r,
                v.shape()[0],
                v.shape()[1],
                numbers,
                v.mask(),
                scale,
                fill,
                level,
                next,
            )
    }
}

/// Whether `r` is the graymap of a data set, or the first obstacle.
pub open spec fn pgm_dataset_outcome<L: Fn(F64, F64, F64) -> F64, N: Fn(F64) -> F64>(
    r: Result<Vec<u8>>,
    d: DatasetView,
    scale: Option<LinearScale>,
    fill: u8,
    level: L,
    next: N,
) -> bool {
    match d.array {
        None => is_invalid(r, "PGM writer requires dataset array data"@),
        Some(v) => array_outcome(r, v, scale, fill, level, next),
    }
}

/// The graymap of an array of any element type.
pub fn encode_pgm_array<L: Fn(F64, F64, F64) -> F64, N: Fn(F64) -> F64>(
    array: &AnyDataArray,
    scale: Option<LinearScale>,
    fill_value: u8,
    level: &L,
    next: &N,
) -> (r: Result<Vec<u8>>)
    requires
        forall|v: F64, a: F64, b: F64| #[trigger] level.requires((v, a, b)),
        forall|v: F64| #[trigger] next.requires((v,)),
    ensures
        array_outcome(r, array@, scale, fill_value, *level, *next),
{
    if !is_plane_array(array) {
        return Err(
            RustySatError::invalid_input("array dimensions do not match expected [\"y\", \"x\"]"),
        );
    }
    let (height, width) = shape_of(array);
    let numbers = array.numbers();
    assert(are_numbers(array@, numbers@));
    encode_pgm_values(height, width, &numbers, array.mask(), scale, fill_value, level, next)
}

/// Whether the dimensions of an array are those of a plane.
pub fn is_plane_array(array: &AnyDataArray) -> (r: bool)
    ensures
        r == plane_dims(array@),
{
    let dims = array.dims();
    let plane = dims.len() == 2 && same_text(dims[0].as_str(), "y") && same_text(
        dims[1].as_str(),
        "x",
    );
    proof {
        let wanted = seq!["y"@, "x"@];
        assert(wanted.len() == 2 && wanted[0] == "y"@ && wanted[1] == "x"@);
        if plane_dims(array@) {
            assert(array@.dims()[0] == dims@[0]@ && array@.dims()[1] == dims@[1]@);
        }
        if plane {
            assert(array@.dims() =~= wanted);
        }
    }
    plane
}

/// The shape of a plane, whose mask has a flag for each pixel.
pub fn shape_of(array: &AnyDataArray) -> (r: (usize, usize))
    requires
        plane_dims(array@),
    ensures
        r == (array@.shape()[0], array@.shape()[1]),
        array@.shape().len() == 2,
        array@.mask() is Some ==> array@.mask()->Some_0.len() == size_of_shape(array@.shape()),
{
    match array {
        AnyDataArray::F32(a) => {
            proof {
                use_type_invariant(a);
            }
            (a.shape_nd()[0], a.shape_nd()[1])
        },
        AnyDataArray::F64(a) => {
            proof {
                use_type_invariant(a);
            }
            (a.shape_nd()[0], a.shape_nd()[1])
        },
        AnyDataArray::U8(a) => {
            proof {
                use_type_invariant(a);
            }
            (a.shape_nd()[0], a.shape_nd()[1])
        },
        AnyDataArray::U16(a) => {
            proof {
                use_type_invariant(a);
            }
            (a.shape_nd()[0], a.shape_nd()[1])
        },
        AnyDataArray::I16(a) => {
            proof {
                use_type_invariant(a);
            }
            (a.shape_nd()[0], a.shape_nd()[1])
        },
    }
}

/// A graymap is its header and one byte for each pixel.
pub proof fn lemma_pgm_length<L: Fn(F64, F64, F64) -> F64, N: Fn(F64) -> F64>(
    r: Result<Vec<u8>>,
    height: usize,
    width: usize,
    values: Seq<F64>,
    mask: Option<Seq<bool>>,
    scale: Option<LinearScale>,
    fill: u8,
    level: L,
    next: N,
)
    requires
        pgm_outcome(r, height, width, values, mask, scale, fill, level, next),
        r is Ok,
    ensures
        r->Ok_0@.len() == pgm_header(height, width).len() + values.len(),
        r->Ok_0@.take(pgm_header(height, width).len() as int) == pgm_header(height, width),
{
    let p = choose|p: Result<Vec<u8>>| #[trigger]
        levels_outcome(p, values, mask, scale, fill, level, next) && match p {
            Err(e) => fails_with(r, e@),
            Ok(pixels) => r is Ok && r->Ok_0@ == pgm_header(height, width) + pixels@,
        };
    assert(p->Ok_0@.len() == values.len());
    assert(r->Ok_0@.take(pgm_header(height, width).len() as int) =~= pgm_header(height, width));
}

/// Whether what `read` gives has the shape of the chunk.
pub open spec fn chunks_fit<R: Fn(usize, usize) -> Result<DataGrid>>(c: ChunkView, read: R) -> bool {
    &&& forall|cy: usize, cx: usize| #[trigger] read.requires((cy, cx))
    &&& forall|cy: usize, cx: usize, g: DataGrid|
        0 <= cy < c.down() && 0 <= cx < c.across() && #[trigger] read.ensures((cy, cx), Ok(g))
            ==> is_plane(g@) && plane_size(g@).0 == c.rows(cy as int) && plane_size(g@).1
            == c.columns(cx as int)
}

/// Whether `chunks` are the first chunks of a plane, row by row.
pub open spec fn are_chunks<R: Fn(usize, usize) -> Result<DataGrid>>(
    c: ChunkView,
    read: R,
    chunks: Seq<DataGrid>,
) -> bool {
    &&& chunks.len() <= c.down() * c.across()
    &&& forall|k: int|
        0 <= k < chunks.len() ==> reads_chunk(
            read,
            k / c.across(),
            k % c.across(),
            #[trigger] chunks[k],
        )
}

/// Whether `r` holds all chunks of a plane, or the error of the first that is not read.
pub open spec fn reading_outcome<R: Fn(usize, usize) -> Result<DataGrid>>(
    r: Result<Vec<DataGrid>>,
    c: ChunkView,
    read: R,
) -> bool {
    match r {
        Ok(chunks) => are_chunks(c, read, chunks@) && chunks@.len() == c.down() * c.across(),
        Err(e) => exists|chunks: Seq<DataGrid>| #[trigger]
            are_chunks(c, read, chunks) && chunks.len() < c.down() * c.across() && read.ensures(
                (
                    (chunks.len() / c.across() as nat) as usize,
                    (chunks.len() % c.across() as nat) as usize,
                ),
                Err(e),
            ),
    }
}

fn read_chunks<R: Fn(usize, usize) -> Result<DataGrid>>(layout: &ChunkGrid, read: &R) -> (r: Result<
    Vec<DataGrid>,
>)
    requires
        chunks_fit(layout@, *read),
    ensures
        reading_outcome(r, layout@, *read),
{
    let ghost c = layout@;
    let (down, across) = layout.counts();
    let total: usize = down * across;
    let mut chunks: Vec<DataGrid> = Vec::new();
    let mut k: usize = 0;
    while k < total
        invariant
            k <= total,
            total == down * across,
            c == layout@,
            down == c.down(),
            across == c.across(),
            chunks_fit(c, *read),
            chunks@.len() == k,
            are_chunks(c, *read, chunks@),
        decreases total - k,
    {
        proof {
            assert(across > 0) by (nonlinear_arith)
                requires
                    0 <= k < down * across,
            ;
        }
        let cy: usize = k / across;
        let cx: usize = k % across;
        match read(cy, cx) {
            Ok(g) => {
                assert(reads_chunk(*read, k as int / c.across(), k as int % c.across(), g));
                chunks.push(g);
            },
            Err(e) => {
                proof {
                    let done = chunks@;
                    assert(are_chunks(c, *read, done));
                    assert(read.ensures((cy, cx), Err(e)));
                    assert((done.len() / c.across() as nat) as usize == cy);
                    assert((done.len() % c.across() as nat) as usize == cx);
                }
                return Err(e);
            },
        }
        k = k + 1;
    }
    Ok(chunks)
}

/// The range of two ranges.
pub open spec fn joined_range(a: Option<(F64, F64)>, b: Option<(F64, F64)>) -> Option<(F64, F64)> {
    match a {
        None => b,
        Some((a_min, a_max)) => match b {
            None => a,
            Some((b_min, b_max)) => Some(
                (
                    if b_min.less(a_min) {
                        b_min
                    } else {
                        a_min
                    },
                    if a_max.less(b_max) {
                        b_max
                    } else {
                        a_max
                    },
                ),
            ),
        },
    }
}

/// The range of the values of chunks.
pub open spec fn chunks_range(chunks: Seq<DataGrid>) -> Option<(F64, F64)>
    decreases chunks.len(),
{
    if chunks.len() == 0 {
        None
    } else {
        let g = chunks.last()@;
        joined_range(chunks_range(chunks.drop_last()), value_range(g.values, g.mask, g.values.len()))
    }
}

fn range_of_chunks(chunks: &Vec<DataGrid>) -> (r: Option<(F64, F64)>)
    ensures
        r == chunks_range(chunks@),
{
    let mut range: Option<(F64, F64)> = None;
    let mut k: usize = 0;
    while k < chunks.len()
        invariant
            k <= chunks@.len(),
            range == chunks_range(chunks@.take(k as int)),
        decreases chunks@.len() - k,
    {
        proof {
            assert(chunks@.take(k + 1).drop_last() =~= chunks@.take(k as int));
            assert(chunks@.take(k + 1).last() == chunks@[k as int]);
        }
        let part = finite_min_max(chunks[k].values(), chunks[k].mask());
        range = match range {
            None => part,
            Some((a_min, a_max)) => match part {
                None => Some((a_min, a_max)),
                Some((b_min, b_max)) => {
                    let low = if b_min.lt(a_min) {
                        b_min
                    } else {
                        a_min
                    };
                    let high = if a_max.lt(b_max) {
                        b_max
                    } else {
                        a_max
                    };
                    Some((low, high))
                },
            },
        };
        k = k + 1;
    }
    assert(chunks@.take(k as int) =~= chunks@);
    range
}

/// The chunk of a pixel among all chunks, and the place of the pixel in it.
pub open spec fn place_in_chunks(c: ChunkView, i: int) -> (int, int) {
    let (cy, cx, ly, lx) = chunk_place(c, i);
    (cy * c.across() + cx, ly * c.columns(cx) + lx)
}

/// Whether `pixels` are the grey levels of a plane in chunks.
pub open spec fn are_chunk_levels<L: Fn(F64, F64, F64) -> F64>(
    c: ChunkView,
    chunks: Seq<DataGrid>,
    scale: (F64, F64),
    fill: u8,
    level: L,
    pixels: Seq<u8>,
) -> bool {
    &&& pixels.len() == c.height * c.width
    &&& forall|i: int|
        0 <= i < pixels.len() ==> is_chunk_level(
            c,
            chunks,
            i,
            scale,
            fill,
            level,
            #[trigger] pixels[i],
        )
}

/// Whether `out` is the grey level of a pixel in its chunk.
pub open spec fn is_chunk_level<L: Fn(F64, F64, F64) -> F64>(
    c: ChunkView,
    chunks: Seq<DataGrid>,
    i: int,
    scale: (F64, F64),
    fill: u8,
    level: L,
    out: u8,
) -> bool {
    let (k, j) = place_in_chunks(c, i);
    is_level(
        masked_in(chunks[k]@.mask, j),
        chunks[k]@.values[j],
        scale,
        fill,
        level,
        out,
    )
}

/// Whether `s` is the given scale, or that for the range of the chunks of a first
/// reading, or the obstacle.
pub open spec fn lazy_scale<R: Fn(usize, usize) -> Result<DataGrid>, N: Fn(F64) -> F64>(
    s: Result<LinearScale>,
    c: ChunkView,
    scale: Option<LinearScale>,
    read: R,
    next: N,
) -> bool {
    match scale {
        Some(given) => s is Ok && s->Ok_0@ == given@,
        None => exists|first: Result<Vec<DataGrid>>| #[trigger]
            reading_outcome(first, c, read) && match first {
                Err(e) => fails_with(s, e@),
                Ok(chunks) => range_outcome(s, chunks_range(chunks@), next),
            },
    }
}

/// Whether `r` is the graymap of a plane in chunks, or the first obstacle. Without a
/// scale the chunks are read twice.
pub open spec fn lazy_outcome<
    R: Fn(usize, usize) -> Result<DataGrid>,
    L: Fn(F64, F64, F64) -> F64,
    N: Fn(F64) -> F64,
>(
    r: Result<Vec<u8>>,
    c: ChunkView,
    scale: Option<LinearScale>,
    fill: u8,
    read: R,
    level: L,
    next: N,
) -> bool {
    exists|s: Result<LinearScale>| #[trigger]
        lazy_scale(s, c, scale, read, next) && match s {
            Err(e) => fails_with(r, e@),
            Ok(chosen) => lazy_encoded(r, c, chosen@, fill, read, level),
        }
}

/// Whether `r` is the graymap of a plane in chunks with a scale, or the error of the
/// first chunk that is not read.
pub open spec fn lazy_encoded<
    R: Fn(usize, usize) -> Result<DataGrid>,
    L: Fn(F64, F64, F64) -> F64,
>(r: Result<Vec<u8>>, c: ChunkView, scale: (F64, F64), fill: u8, read: R, level: L) -> bool {
    exists|all: Result<Vec<DataGrid>>| #[trigger]
        reading_outcome(all, c, read) && match all {
            Err(e) => fails_with(r, e@),
            Ok(chunks) => r is Ok && exists|pixels: Seq<u8>| #[trigger]
                are_chunk_levels(c, chunks@, scale, fill, level, pixels) && r->Ok_0@ == pgm_header(
                    c.height,
                    c.width,
                ) + pixels,
        }
}

proof fn lemma_place_in_chunks<R: Fn(usize, usize) -> Result<DataGrid>>(
    c: ChunkView,
    read: R,
    chunks: Seq<DataGrid>,
    i: int,
)
    requires
        chunks_ok(c),
        chunks_fit(c, read),
        are_chunks(c, read, chunks),
        chunks.len() == c.down() * c.across(),
        0 <= i < c.height * c.width,
    ensures
        ({
            let (cy, cx, ly, lx) = chunk_place(c, i);
            let k = cy * c.across() + cx;
            &&& 0 <= cy < c.down()
            &&& 0 <= cx < c.across()
            &&& 0 <= cy * c.across()
            &&& 0 <= k < chunks.len()
            &&& is_plane(chunks[k]@)
            &&& plane_size(chunks[k]@).0 == c.rows(cy)
            &&& plane_size(chunks[k]@).1 == c.columns(cx)
            &&& c.columns(cx) > 0
            &&& 0 <= ly < c.rows(cy)
            &&& 0 <= lx < c.columns(cx)
            &&& 0 <= ly * c.columns(cx)
            &&& ly * c.columns(cx) + lx < c.rows(cy) * c.columns(cx)
        }),
{
    let w = c.width as int;
    assert(w > 0) by (nonlinear_arith)
        requires
            0 <= i < c.height * w,
    ;
    let y = i / w;
    let x = i % w;
    assert(0 <= y < c.height && 0 <= x < w) by (nonlinear_arith)
        requires
            0 <= i < c.height * w,
            w > 0,
            y == i / w,
            x == i % w,
    ;
    lemma_pixel_in_chunk(c, y, x);
    let (cy, cx, ly, lx) = chunk_place(c, i);
    let across = c.across();
    let k = cy * across + cx;
    assert(0 <= cy * across && 0 <= k < c.down() * across) by (nonlinear_arith)
        requires
            0 <= cy < c.down(),
            0 <= cx < across,
            k == cy * across + cx,
    ;
    vstd::arithmetic::div_mod::lemma_fundamental_div_mod_converse(k, across, cy, cx);
    assert(reads_chunk(read, k / across, k % across, chunks[k]));
    assert(0 <= cy * c.chunk_y) by (nonlinear_arith)
        requires
            0 <= cy,
    ;
    assert(0 <= cx * c.chunk_x) by (nonlinear_arith)
        requires
            0 <= cx,
    ;
    assert(c.down() <= c.height) by {
        crate::tiff_layout::lemma_tiles_along(c.height as int, c.chunk_y as int);
    }
    assert(c.across() <= c.width) by {
        crate::tiff_layout::lemma_tiles_along(c.width as int, c.chunk_x as int);
    }
    assert(read.ensures((cy as usize, cx as usize), Ok(chunks[k])));
    let cols = c.columns(cx);
    let rows = c.rows(cy);
    assert(0 <= ly * cols && ly * cols + lx < rows * cols) by (nonlinear_arith)
        requires
            0 <= ly < rows,
            0 <= lx < cols,
    ;
}

/// The graymap of a plane that is read in chunks. `read` gives a chunk by its place.
pub fn encode_pgm_lazy<
    R: Fn(usize, usize) -> Result<DataGrid>,
    L: Fn(F64, F64, F64) -> F64,
    N: Fn(F64) -> F64,
>(
    layout: &ChunkGrid,
    scale: Option<LinearScale>,
    fill_value: u8,
    read: &R,
    level: &L,
    next: &N,
) -> (r: Result<Vec<u8>>)
    requires
        chunks_fit(layout@, *read),
        forall|v: F64, a: F64, b: F64| #[trigger] level.requires((v, a, b)),
        forall|v: F64| #[trigger] next.requires((v,)),
    ensures
        lazy_outcome(r, layout@, scale, fill_value, *read, *level, *next),
{
    let s = choose_lazy_scale(layout, scale, read, next);
    assert(lazy_scale(s, layout@, scale, *read, *next));
    match s {
        Ok(chosen) => encode_chunks(layout, &chosen, fill_value, read, level),
        Err(e) => Err(e),
    }
}

fn choose_lazy_scale<R: Fn(usize, usize) -> Result<DataGrid>, N: Fn(F64) -> F64>(
    layout: &ChunkGrid,
    scale: Option<LinearScale>,
    read: &R,
    next: &N,
) -> (r: Result<LinearScale>)
    requires
        chunks_fit(layout@, *read),
        forall|v: F64| #[trigger] next.requires((v,)),
    ensures
        lazy_scale(r, layout@, scale, *read, *next),
{
    match scale {
        Some(given) => Ok(given),
        None => {
            let first = read_chunks(layout, read);
            assert(reading_outcome(first, layout@, *read));
            match first {
                Ok(chunks) => scale_for_range(range_of_chunks(&chunks), next),
                Err(e) => Err(e),
            }
        },
    }
}

fn encode_chunks<R: Fn(usize, usize) -> Result<DataGrid>, L: Fn(F64, F64, F64) -> F64>(
    layout: &ChunkGrid,
    scale: &LinearScale,
    fill_value: u8,
    read: &R,
    level: &L,
) -> (r: Result<Vec<u8>>)
    requires
        chunks_fit(layout@, *read),
        forall|v: F64, a: F64, b: F64| #[trigger] level.requires((v, a, b)),
    ensures
        lazy_encoded(r, layout@, scale@, fill_value, *read, *level),
{
    proof {
        use_type_invariant(layout);
    }
    let ghost c = layout@;
    let all = read_chunks(layout, read);
    assert(reading_outcome(all, c, *read));
    let chunks = match all {
        Ok(v) => v,
        Err(e) => {
            return Err(e);
        },
    };
    let _count: usize = chunks.len();
    let (height, width) = layout.shape();
    let (chunk_y, chunk_x) = layout.chunk_shape();
    let (_down, across) = layout.counts();
    let mut out = header(height, width);
    let ghost front = out@;
    let ghost mut pixels: Seq<u8> = Seq::empty();
    let size: usize = height * width;
    let mut i: usize = 0;
    while i < size
        invariant
            i <= size,
            size == height * width,
            height == c.height,
            width == c.width,
            chunk_y == c.chunk_y,
            chunk_x == c.chunk_x,
            across == c.across(),
            chunks_ok(c),
            chunks_fit(c, *read),
            are_chunks(c, *read, chunks@),
            chunks@.len() == c.down() * c.across(),
            chunks@.len() <= usize::MAX,
            forall|v: F64, a: F64, b: F64| #[trigger] level.requires((v, a, b)),
            pixels.len() == i,
            out@ == front + pixels,
            forall|j: int|
                0 <= j < i ==> is_chunk_level(
                    c,
                    chunks@,
                    j,
                    scale@,
                    fill_value,
                    *level,
                    #[trigger] pixels[j],
                ),
        decreases size - i,
    {
        proof {
            lemma_place_in_chunks(c, *read, chunks@, i as int);
            assert(width > 0) by (nonlinear_arith)
                requires
                    0 <= i < height * width,
            ;
        }
        let y: usize = i / width;
        let x: usize = i % width;
        let chunk = &chunks[(y / chunk_y) * across + x / chunk_x];
        let _pixels: usize = chunk.len();
        let (_rows, columns) = grid_shape(chunk);
        let j: usize = (y % chunk_y) * columns + x % chunk_x;
        let masked = match chunk.is_masked(j) {
            Some(b) => b,
            None => false,
        };
        let pixel: u8 = grey_level(masked, chunk.values()[j], scale, fill_value, level);
        assert(is_chunk_level(c, chunks@, i as int, scale@, fill_value, *level, pixel));
        out.push(pixel);
        proof {
            pixels = pixels.push(pixel);
            assert(out@ =~= front + pixels);
        }
        i = i + 1;
    }
    assert(are_chunk_levels(c, chunks@, scale@, fill_value, *level, pixels));
    Ok(out)
}

/// How graymaps are written.
#[derive(Clone, Debug)]
pub struct PgmWriter {
    scale: Option<LinearScale>,
    fill_value: u8,
}

impl Default for PgmWriter {
    fn default() -> (r: Self)
        ensures
            r.scale_of() is None,
            r.fill() == 0,
    {
        Self::new()
    }
}

impl PgmWriter {
    /// The scale, where one is chosen.
    pub closed spec fn scale_of(&self) -> Option<LinearScale> {
        self.scale
    }

    /// The grey level of a value that is missing.
    pub closed spec fn fill(&self) -> u8 {
        self.fill_value
    }

    pub fn new() -> (r: Self)
        ensures
            r.scale_of() is None,
            r.fill() == 0,
    {
        PgmWriter { scale: None, fill_value: 0 }
    }

    pub fn with_scale(self, min: F64, max: F64) -> (r: Result<Self>)
        ensures
            match scale_error(min, max) {
                Some(e) => fails_with(r, e),
                None => r is Ok && r->Ok_0.scale_of() is Some && r->Ok_0.scale_of()->Some_0@ == (
                    min,
                    max,
                ) && r->Ok_0.fill() == self.fill(),
            },
    {
        match LinearScale::new(min, max) {
            Ok(scale) => Ok(PgmWriter { scale: Some(scale), fill_value: self.fill_value }),
            Err(e) => Err(e),
        }
    }

    pub fn with_fill_value(self, fill_value: u8) -> (r: Self)
        ensures
            r.scale_of() == self.scale_of(),
            r.fill() == fill_value,
    {
        PgmWriter { scale: self.scale, fill_value }
    }

    pub fn name(&self) -> (r: &str)
        ensures
            r@ == "pgm"@,
    {
        "pgm"
    }

    /// The graymap of a data set.
    pub fn encode_dataset<L: Fn(F64, F64, F64) -> F64, N: Fn(F64) -> F64>(
        &self,
        dataset: &Dataset,
        level: &L,
        next: &N,
    ) -> (r: Result<Vec<u8>>)
        requires
            forall|v: F64, a: F64, b: F64| #[trigger] level.requires((v, a, b)),
            forall|v: F64| #[trigger] next.requires((v,)),
        ensures
            pgm_dataset_outcome(r, dataset@, self.scale_of(), self.fill(), *level, *next),
    {
        match dataset.array() {
            Some(array) => encode_pgm_array(
                array,
                self.scale,
                self.fill_value,
                level,
                next,
            ),
            None => Err(RustySatError::invalid_input("PGM writer requires dataset array data")),
        }
    }
}

/// Whether the pixel `j` of the chunk `k` has a value.
pub open spec fn has_value(chunks: Seq<DataGrid>, k: int, j: int) -> bool {
    &&& 0 <= k < chunks.len()
    &&& 0 <= j < chunks[k]@.values.len()
    &&& !missing(chunks[k]@.mask, j, chunks[k]@.values[j])
}

/// The range of the values of chunks is finite, each value lies in it, and both ends are
/// among them.
pub proof fn lemma_chunks_range(chunks: Seq<DataGrid>)
    ensures
        chunks_range(chunks) is None <==> forall|k: int, j: int| !#[trigger] has_value(chunks, k, j),
        chunks_range(chunks) is Some ==> {
            let (min, max) = chunks_range(chunks)->Some_0;
            &&& min.finite()
            &&& max.finite()
            &&& forall|k: int, j: int| #[trigger]
                has_value(chunks, k, j) ==> min.at_most(chunks[k]@.values[j])
                    && chunks[k]@.values[j].at_most(max)
            &&& exists|k: int, j: int| #[trigger]
                has_value(chunks, k, j) && chunks[k]@.values[j] == min
            &&& exists|k: int, j: int| #[trigger]
                has_value(chunks, k, j) && chunks[k]@.values[j] == max
        },
    decreases chunks.len(),
{
    if chunks.len() > 0 {
        let rest = chunks.drop_last();
        let last = chunks.len() - 1;
        let g = chunks.last()@;
        let before = chunks_range(rest);
        let part = value_range(g.values, g.mask, g.values.len());
        lemma_chunks_range(rest);
        lemma_value_range(g.values, g.mask, g.values.len());
        assert forall|k: int, j: int| #[trigger] has_value(chunks, k, j) implies if k == last {
            0 <= j < g.values.len() && !missing(g.mask, j, g.values[j])
        } else {
            has_value(rest, k, j)
        } by {}
        assert forall|k: int, j: int| #[trigger] has_value(rest, k, j) implies has_value(
            chunks,
            k,
            j,
        ) && chunks[k] == rest[k] by {}
        assert forall|j: int|
            0 <= j < g.values.len() && !missing(g.mask, j, #[trigger] g.values[j]) implies has_value(
            chunks,
            last,
            j,
        ) by {}
        if before is Some {
            let (min, max) = before->Some_0;
            let (k, j) = choose|k: int, j: int| #[trigger]
                has_value(rest, k, j) && rest[k]@.values[j] == min;
            let (m, n) = choose|k: int, j: int| #[trigger]
                has_value(rest, k, j) && rest[k]@.values[j] == max;
            assert(has_value(chunks, k, j) && has_value(chunks, m, n));
        }
        if part is Some {
            let (min, max) = part->Some_0;
            let j = choose|j: int|
                0 <= j < g.values.len() && !missing(g.mask, j, #[trigger] g.values[j])
                    && g.values[j] == min;
            let n = choose|j: int|
                0 <= j < g.values.len() && !missing(g.mask, j, #[trigger] g.values[j])
                    && g.values[j] == max;
            assert(has_value(chunks, last, j) && has_value(chunks, last, n));
        }
    }
}

/// Whether chunks are the parts of a plane.
pub open spec fn are_parts(plane: ArrayView<F64>, c: ChunkView, chunks: Seq<DataGrid>) -> bool {
    &&& plane.values.len() == c.height * c.width
    &&& chunks.len() == c.down() * c.across()
    &&& forall|k: int|
        0 <= k < chunks.len() ==> (#[trigger] chunks[k])@.values.len() == plane_size(chunks[k]@).0
            * plane_size(chunks[k]@).1 && is_part(
            plane,
            c,
            k / c.across(),
            k % c.across(),
            chunks[k]@,
        )
}

/// The chunk that holds a pixel of a plane, and the pixel in it.
proof fn lemma_pixel_among_parts(
    plane: ArrayView<F64>,
    c: ChunkView,
    chunks: Seq<DataGrid>,
    i: int,
)
    requires
        chunks_ok(c),
        are_parts(plane, c, chunks),
        0 <= i < c.height * c.width,
    ensures
        ({
            let (k, j) = place_in_chunks(c, i);
            &&& 0 <= k < chunks.len()
            &&& 0 <= j < chunks[k]@.values.len()
            &&& chunks[k]@.values[j] == plane.values[i]
            &&& masked_in(chunks[k]@.mask, j) == masked_in(plane.mask, i)
        }),
{
    let w = c.width as int;
    assert(w > 0) by (nonlinear_arith)
        requires
            0 <= i < c.height * w,
            w >= 0,
    ;
    vstd::arithmetic::div_mod::lemma_fundamental_div_mod(i, w);
    let y = i / w;
    let x = i % w;
    assert(0 <= y < c.height) by (nonlinear_arith)
        requires
            i == w * y + x,
            0 <= x < w,
            0 <= i < c.height * w,
    ;
    lemma_pixel_in_chunk(c, y, x);
    let (cy, cx, ly, lx) = chunk_place(c, i);
    let k = cy * c.across() + cx;
    assert(0 <= k < c.down() * c.across()) by (nonlinear_arith)
        requires
            k == cy * c.across() + cx,
            0 <= cy < c.down(),
            0 <= cx < c.across(),
    ;
    vstd::arithmetic::div_mod::lemma_fundamental_div_mod_converse(k, c.across(), cy, cx);
    lemma_pixel_of_part(plane, c, i, chunks[k]@);
    let rows = c.rows(cy);
    let columns = c.columns(cx);
    assert(0 <= ly * columns + lx < rows * columns) by (nonlinear_arith)
        requires
            0 <= ly < rows,
            0 <= lx < columns,
    ;
}

/// The pixel of a plane that a pixel of a chunk is.
proof fn lemma_part_in_plane(
    plane: ArrayView<F64>,
    c: ChunkView,
    chunks: Seq<DataGrid>,
    k: int,
    j: int,
) -> (i: int)
    requires
        chunks_ok(c),
        are_parts(plane, c, chunks),
        0 <= k < chunks.len(),
        0 <= j < chunks[k]@.values.len(),
    ensures
        0 <= i < plane.values.len(),
        chunks[k]@.values[j] == plane.values[i],
        masked_in(chunks[k]@.mask, j) == masked_in(plane.mask, i),
{
    let across = c.across();
    let chunk = chunks[k]@;
    if c.height > 0 {
        lemma_tiles_along(c.height as int, c.chunk_y as int);
    }
    if c.width > 0 {
        lemma_tiles_along(c.width as int, c.chunk_x as int);
    }
    assert(across > 0 && c.down() > 0) by (nonlinear_arith)
        requires
            0 <= k < c.down() * across,
            across >= 0,
            c.down() >= 0,
    ;
    let cy = k / across;
    let cx = k % across;
    vstd::arithmetic::div_mod::lemma_fundamental_div_mod(k, across);
    assert(0 <= cy < c.down()) by (nonlinear_arith)
        requires
            k == across * cy + cx,
            0 <= cx < across,
            0 <= k < c.down() * across,
    ;
    let rows = c.rows(cy);
    let columns = c.columns(cx);
    assert(columns > 0) by (nonlinear_arith)
        requires
            0 <= j < rows * columns,
            rows >= 0,
    ;
    let ly = j / columns;
    let lx = j % columns;
    vstd::arithmetic::div_mod::lemma_fundamental_div_mod(j, columns);
    assert(0 <= ly < rows && ly * columns + lx == j) by (nonlinear_arith)
        requires
            j == columns * ly + lx,
            0 <= lx < columns,
            0 <= j < rows * columns,
    ;
    assert(part_agrees(plane, c, cy, cx, chunk, ly, lx));
    let y = cy * c.chunk_y + ly;
    let x = cx * c.chunk_x + lx;
    assert(0 <= cy * c.chunk_y && 0 <= cx * c.chunk_x) by (nonlinear_arith)
        requires
            0 <= cy,
            0 <= cx,
            c.chunk_y > 0,
            c.chunk_x > 0,
    ;
    assert(0 <= y < c.height && 0 <= x < c.width);
    assert(0 <= y * c.width + x < c.height * c.width) by (nonlinear_arith)
        requires
            0 <= y < c.height,
            0 <= x < c.width,
    ;
    y * c.width + x
}

/// A graymap of a plane that is read in chunks is that of the whole plane: with the same
/// scale the grey levels are the same.
pub proof fn lemma_levels_of_parts<L: Fn(F64, F64, F64) -> F64>(
    plane: ArrayView<F64>,
    c: ChunkView,
    chunks: Seq<DataGrid>,
    scale: (F64, F64),
    fill: u8,
    level: L,
    pixels: Seq<u8>,
)
    requires
        chunks_ok(c),
        are_parts(plane, c, chunks),
    ensures
        are_chunk_levels(c, chunks, scale, fill, level, pixels) <==> are_levels(
            plane.values,
            plane.mask,
            scale,
            fill,
            level,
            pixels,
        ),
{
    if pixels.len() == c.height * c.width {
        assert forall|i: int| 0 <= i < pixels.len() implies is_chunk_level(
            c,
            chunks,
            i,
            scale,
            fill,
            level,
            #[trigger] pixels[i],
        ) == is_level(masked_in(plane.mask, i), plane.values[i], scale, fill, level, pixels[i]) by {
            lemma_pixel_among_parts(plane, c, chunks, i);
        }
    }
}

/// The range of the chunks of a plane is the range of the plane: both have no value, or
/// the same smallest and the same largest number. Of two zeros that differ in their sign
/// either may stand for both.
pub proof fn lemma_range_of_parts(plane: ArrayView<F64>, c: ChunkView, chunks: Seq<DataGrid>)
    requires
        chunks_ok(c),
        are_parts(plane, c, chunks),
    ensures
        match value_range(plane.values, plane.mask, plane.values.len()) {
            None => chunks_range(chunks) is None,
            Some((min, max)) => chunks_range(chunks) is Some
                && chunks_range(chunks)->Some_0.0.same_number(min)
                && chunks_range(chunks)->Some_0.1.same_number(max),
        },
{
    let n = plane.values.len();
    lemma_value_range(plane.values, plane.mask, n);
    lemma_chunks_range(chunks);
    if value_range(plane.values, plane.mask, n) is Some {
        let (min, max) = value_range(plane.values, plane.mask, n)->Some_0;
        let a = choose|i: int|
            0 <= i < n && !missing(plane.mask, i, #[trigger] plane.values[i]) && plane.values[i]
                == min;
        let b = choose|i: int|
            0 <= i < n && !missing(plane.mask, i, #[trigger] plane.values[i]) && plane.values[i]
                == max;
        lemma_pixel_among_parts(plane, c, chunks, a);
        lemma_pixel_among_parts(plane, c, chunks, b);
        assert(has_value(chunks, place_in_chunks(c, a).0, place_in_chunks(c, a).1));
        assert(has_value(chunks, place_in_chunks(c, b).0, place_in_chunks(c, b).1));
        let (low, high) = chunks_range(chunks)->Some_0;
        let (k, j) = choose|k: int, j: int| #[trigger]
            has_value(chunks, k, j) && chunks[k]@.values[j] == low;
        let (p, q) = choose|k: int, j: int| #[trigger]
            has_value(chunks, k, j) && chunks[k]@.values[j] == high;
        let i = lemma_part_in_plane(plane, c, chunks, k, j);
        let m = lemma_part_in_plane(plane, c, chunks, p, q);
        assert(!missing(plane.mask, i, plane.values[i]));
        assert(!missing(plane.mask, m, plane.values[m]));
    } else {
        assert forall|k: int, j: int| !#[trigger] has_value(chunks, k, j) by {
            if has_value(chunks, k, j) {
                let i = lemma_part_in_plane(plane, c, chunks, k, j);
                assert(missing(plane.mask, i, plane.values[i]));
            }
        }
    }
}

/// Whether a value of a plane is shown: it is finite and its flag is not set.
pub open spec fn is_seen(values: Seq<F64>, mask: Option<Seq<bool>>, i: int) -> bool {
    values[i].finite() && !(mask is Some && mask->Some_0[i])
}

/// Whether a grey level is the nearest one to a place, the lighter of two that are as near.
/// What is no number is black, and what is not finite is black or white by its sign.
pub open spec fn is_nearest_grey(place: F64, out: u8) -> bool {
    &&& place.finite() ==> forall|other: u8|
        #![trigger apart(place, other as int)]
        apart(place, out as int) <= apart(place, other as int) && (other > out ==> apart(
            place,
            out as int,
        ) < apart(place, other as int))
    &&& !place.finite() ==> out == if place.nan() || place.rank() < 0 {
        0u8
    } else {
        255u8
    }
}

/// Whether `out` is the grey level of a value between black, `low`, and white, `high`.
pub open spec fn is_grey<L: Fn(F64, F64, F64) -> F64>(
    value: F64,
    low: F64,
    high: F64,
    level: L,
    out: u8,
) -> bool {
    exists|place: F64| #[trigger]
        level.ensures((value, low, high), place) && is_nearest_grey(place, out)
}

/// Whether these are what is black and what is white: the given bounds, or else the least and
/// the greatest value that is shown. Where all are the same, white is what `next` gives, and
/// where there are none, they are zero and one.
pub open spec fn is_contrast<N: Fn(F64) -> F64>(
    low: F64,
    high: F64,
    given: Option<(F64, F64)>,
    values: Seq<F64>,
    mask: Option<Seq<bool>>,
    next: N,
) -> bool {
    if given is Some {
        low == given->Some_0.0 && high == given->Some_0.1
    } else if exists|i: int| 0 <= i < values.len() && #[trigger] is_seen(values, mask, i) {
        exists|least: int, greatest: int|
            #![trigger is_seen(values, mask, least), is_seen(values, mask, greatest)]
            {
                &&& 0 <= least < values.len() && is_seen(values, mask, least)
                &&& 0 <= greatest < values.len() && is_seen(values, mask, greatest)
                &&& forall|k: int|
                    0 <= k < values.len() && #[trigger] is_seen(values, mask, k)
                        ==> values[least].rank() <= values[k].rank() <= values[greatest].rank()
                &&& low == values[least]
                &&& if values[least].rank() == values[greatest].rank() {
                    next.ensures((low,), high)
                } else {
                    high == values[greatest]
                }
            }
    } else {
        low.bits == 0 && high.bits == 0x3ff0_0000_0000_0000
    }
}

/// The grey levels of a plane: that of a value that is not shown is the fill level, another is
/// the level nearest to the place of the value between black and white.
pub proof fn lemma_levels_show_plane<L: Fn(F64, F64, F64) -> F64, N: Fn(F64) -> F64>(
    r: Result<Vec<u8>>,
    values: Seq<F64>,
    mask: Option<Seq<bool>>,
    scale: Option<LinearScale>,
    fill: u8,
    level: L,
    next: N,
) -> (bounds: (F64, F64))
    requires
        levels_outcome(r, values, mask, scale, fill, level, next),
        mask is Some ==> mask->Some_0.len() == values.len(),
        r is Ok,
    ensures
        is_contrast(
            bounds.0,
            bounds.1,
            match scale {
                Some(s) => Some(s@),
                None => None,
            },
            values,
            mask,
            next,
        ),
        r->Ok_0@.len() == values.len(),
        forall|i: int|
            0 <= i < values.len() ==> if is_seen(values, mask, i) {
                is_grey(values[i], bounds.0, bounds.1, level, #[trigger] r->Ok_0@[i])
            } else {
                r->Ok_0@[i] == fill
            },
{
    let s = choose|s: Result<LinearScale>| #[trigger]
        scale_chosen(s, scale, value_range(values, mask, values.len()), next) && match s {
            Err(e) => fails_with(r, e@),
            Ok(chosen) => r is Ok && are_levels(values, mask, chosen@, fill, level, r->Ok_0@),
        };
    let chosen = s->Ok_0;
    let (low, high) = chosen@;
    lemma_value_range(values, mask, values.len());
    if scale is None {
        match value_range(values, mask, values.len()) {
            None => {
                assert forall|i: int| 0 <= i < values.len() implies !#[trigger] is_seen(
                    values,
                    mask,
                    i,
                ) by {
                    assert(missing(mask, i, values[i]));
                }
            },
            Some((min, max)) => {
                let least = choose|i: int|
                    0 <= i < values.len() && !missing(mask, i, #[trigger] values[i]) && values[i]
                        == min;
                let greatest = choose|i: int|
                    0 <= i < values.len() && !missing(mask, i, #[trigger] values[i]) && values[i]
                        == max;
                assert(is_seen(values, mask, least) && is_seen(values, mask, greatest));
                assert forall|k: int| 0 <= k < values.len() && #[trigger] is_seen(
                    values,
                    mask,
                    k,
                ) implies values[least].rank() <= values[k].rank() <= values[greatest].rank() by {
                    assert(!missing(mask, k, values[k]));
                }
            },
        }
    }
    assert forall|i: int| 0 <= i < values.len() implies if is_seen(values, mask, i) {
        is_grey(values[i], low, high, level, #[trigger] r->Ok_0@[i])
    } else {
        r->Ok_0@[i] == fill
    } by {
        assert(is_level(masked_in(mask, i), values[i], (low, high), fill, level, r->Ok_0@[i]));
        if is_seen(values, mask, i) {
            let out = r->Ok_0@[i];
            let place = choose|place: F64| #[trigger]
                level.ensures((values[i], low, high), place) && out == level_within(place, WHITE);
            assert forall|other: u8|
                #![trigger apart(place, other as int)]
                place.finite() implies apart(place, out as int) <= apart(place, other as int) && (
            other > out ==> apart(place, out as int) < apart(place, other as int)) by {
                lemma_level_is_nearest(place, 255, other as int);
            }
            lemma_level_is_nearest(place, 255, 0);
            assert(is_nearest_grey(place, out));
        }
    }
    (low, high)
}

/// A graymap is its size as text and the grey levels of the plane.
pub proof fn lemma_pgm_shows_plane<L: Fn(F64, F64, F64) -> F64, N: Fn(F64) -> F64>(
    r: Result<Vec<u8>>,
    height: usize,
    width: usize,
    values: Seq<F64>,
    mask: Option<Seq<bool>>,
    scale: Option<LinearScale>,
    fill: u8,
    level: L,
    next: N,
) -> (pixels: Result<Vec<u8>>)
    requires
        pgm_outcome(r, height, width, values, mask, scale, fill, level, next),
        r is Ok,
    ensures
        pixels is Ok,
        levels_outcome(pixels, values, mask, scale, fill, level, next),
        r->Ok_0@ == encode_utf8(
            "P5\n"@ + decimal(width as nat) + " "@ + decimal(height as nat) + "\n255\n"@,
        ) + pixels->Ok_0@,
{
    choose|p: Result<Vec<u8>>| #[trigger]
        levels_outcome(p, values, mask, scale, fill, level, next) && match p {
            Err(e) => fails_with(r, e@),
            Ok(pixels) => r is Ok && r->Ok_0@ == pgm_header(height, width) + pixels@,
        }
}

/// The graymap of a data set is that of the numbers of its plane, and there is one only of a
/// plane with rows before columns.
pub proof fn lemma_pgm_of_dataset<L: Fn(F64, F64, F64) -> F64, N: Fn(F64) -> F64>(
    r: Result<Vec<u8>>,
    d: DatasetView,
    scale: Option<LinearScale>,
    fill: u8,
    level: L,
    next: N,
) -> (numbers: Seq<F64>)
    requires
        pgm_dataset_outcome(r, d, scale, fill, level, next),
        r is Ok,
    ensures
        d.array is Some,
        d.array->Some_0.dims() == seq!["y"@, "x"@],
        are_numbers(d.array->Some_0, numbers),
        pgm_outcome(
            r,
            d.array->Some_0.shape()[0],
            d.array->Some_0.shape()[1],
            numbers,
            d.array->Some_0.mask(),
            scale,
            fill,
            level,
            next,
        ),
{
    let v = d.array->Some_0;
    choose|numbers: Seq<F64>| #[trigger]
        are_numbers(v, numbers) && pgm_outcome(
            r,
            v.shape()[0],
            v.shape()[1],
            numbers,
            v.mask(),
            scale,
            fill,
            level,
            next,
        )
}

} // verus!
