//! Resampling by the nearest source pixel.

use crate::area::{area_ok, AreaDefinition, AreaGrid, AreaGridView, AreaView};
use crate::array::{
    any_set, array_ok, lemma_plane_len, masked_in, AnyArrayView, ArrayView, DataGrid,
};
use crate::assemble::{
    finish_plane, is_plane, keeps_axes, lemma_axes_kept, mask_of, resampled_plane, PlaneNames,
};
use crate::chunks::{chunks_ok, lemma_pixel_in_chunk, ChunkGrid, ChunkView};
use crate::dataset::{
    grid_of, is_on_area, lemma_resampled, resampled, Dataset, DatasetView,
};
use crate::error::{fails_with, is_invalid, ErrorView, Result, RustySatError};
use crate::nd_utils::lemma_pixel_inside;
use crate::neighbour_search::{pixel_lat, pixel_lon};
use crate::number::{F64, NAN_BITS_64};
use crate::rounding::{apart, clamp_pixel_index, lemma_place_is_nearest, nearest_place};
use crate::swath::{SwathDefinition, SwathView};
use crate::text::{contains_text, has_part, join4, pair_notation, pair_text, stands_at};
use crate::text_map::TextMap;
use vstd::prelude::*;

verus! {

/// What becomes of a target pixel without a source pixel.
#[derive(Clone, Copy, Debug, PartialEq, Eq, Structural)]
pub enum MissingValuePolicy {
    FillValue,
    Mask,
}

impl MissingValuePolicy {
    pub open spec fn masks(self) -> bool {
        self is Mask
    }

    pub fn masks_missing(self) -> (r: bool)
        ensures
            r == self.masks(),
    {
        match self {
            MissingValuePolicy::FillValue => false,
            MissingValuePolicy::Mask => true,
        }
    }
}

/// The height and the width of a plane.
pub open spec fn plane_size(a: ArrayView<F64>) -> (usize, usize) {
    (a.shape[0], a.shape[1])
}

pub fn grid_shape(grid: &DataGrid) -> (r: (usize, usize))
    requires
        is_plane(grid@),
    ensures
        r == plane_size(grid@),
        r.0 * r.1 == grid@.values.len(),
{
    proof {
        use_type_invariant(grid);
        crate::array::lemma_plane_size(grid@.shape[0], grid@.shape[1]);
        assert(grid@.shape =~= seq![grid@.shape[0], grid@.shape[1]]);
    }
    let shape = grid.shape_nd();
    (shape[0], shape[1])
}

/// The values of target pixels: those of their source pixels, or the fill value.
pub open spec fn cell_values(values: Seq<F64>, cells: Seq<Option<usize>>, fill: F64) -> Seq<F64> {
    Seq::new(
        cells.len(),
        |t: int|
            match cells[t] {
                Some(i) => values[i as int],
                None => fill,
            },
    )
}

/// Which target pixels are masked: those whose source pixel is, and those without one
/// where the policy says so.
pub open spec fn cell_flags(
    mask: Option<Seq<bool>>,
    cells: Seq<Option<usize>>,
    policy: MissingValuePolicy,
) -> Seq<bool> {
    Seq::new(
        cells.len(),
        |t: int|
            match cells[t] {
                Some(i) => masked_in(mask, i as int),
                None => policy.masks(),
            },
    )
}

/// Whether all cells are source pixels.
pub open spec fn cells_within(cells: Seq<Option<usize>>, n: nat) -> bool {
    forall|t: int| 0 <= t < cells.len() && (#[trigger] cells[t]) is Some ==> cells[t]->Some_0 < n
}

/// Takes the values of source pixels.
fn sample_cells(
    source: &DataGrid,
    destination: &AreaGrid,
    cells: &Vec<Option<usize>>,
    fill_value: F64,
    policy: MissingValuePolicy,
) -> (r: Result<DataGrid>)
    requires
        is_plane(source@),
        cells@.len() == destination@.area.height * destination@.area.width,
        cells_within(cells@, source@.values.len()),
    ensures
        r is Ok,
        r->Ok_0@ == resampled_plane(
            Some(source@),
            destination@,
            cell_values(source@.values, cells@, fill_value),
            cell_flags(source@.mask, cells@, policy),
        ),
{
    let mut values: Vec<F64> = Vec::new();
    let mut flags: Vec<bool> = Vec::new();
    let mut t: usize = 0;
    while t < cells.len()
        invariant
            t <= cells@.len(),
            cells_within(cells@, source@.values.len()),
            values@.len() == t,
            flags@.len() == t,
            forall|u: int|
                0 <= u < t ==> values@[u] == cell_values(source@.values, cells@, fill_value)[u],
            forall|u: int| 0 <= u < t ==> flags@[u] == cell_flags(source@.mask, cells@, policy)[u],
        decreases cells@.len() - t,
    {
        match cells[t] {
            Some(i) => {
                values.push(source.values()[i]);
                let masked = match source.is_masked(i) {
                    Some(b) => b,
                    None => false,
                };
                flags.push(masked);
            },
            None => {
                values.push(fill_value);
                flags.push(policy.masks_missing());
            },
        }
        t = t + 1;
    }
    proof {
        assert(values@ =~= cell_values(source@.values, cells@, fill_value));
        assert(flags@ =~= cell_flags(source@.mask, cells@, policy));
    }
    finish_plane(Some(source), destination, values, flags)
}

/// Whether a distance lies outside the radius.
pub open spec fn outside(radius: Option<F64>, d: F64) -> bool {
    radius is Some && radius->Some_0.less(d)
}

fn is_outside(radius: Option<F64>, d: F64) -> (r: bool)
    ensures
        r == outside(radius, d),
{
    match radius {
        Some(limit) => limit.lt(d),
        None => false,
    }
}

/// The row and the column of the source pixel nearest to a place, its column and its
/// row.
pub open spec fn pixel_near(place: (F64, F64), height: usize, width: usize) -> Option<
    (usize, usize),
> {
    match (nearest_place(place.1, height), nearest_place(place.0, width)) {
        (Some(y), Some(x)) => Some((y, x)),
        _ => None,
    }
}

/// The source pixel nearest to a place.
pub fn nearest_source_pixel(place: (F64, F64), height: usize, width: usize) -> (r: Option<
    (usize, usize),
>)
    ensures
        r == pixel_near(place, height, width),
        r is Some ==> r->Some_0.0 < height && r->Some_0.1 < width,
{
    match (clamp_pixel_index(place.1, height), clamp_pixel_index(place.0, width)) {
        (Some(y), Some(x)) => Some((y, x)),
        _ => None,
    }
}

/// Whether `cell` is the source pixel that is taken for a position at a place: the one
/// nearest to the place, unless it lies outside the radius.
pub open spec fn is_taken<G: Fn(F64, F64, usize, usize) -> F64>(
    x: F64,
    y: F64,
    place: (F64, F64),
    radius: Option<F64>,
    height: usize,
    width: usize,
    gap: G,
    cell: Option<usize>,
) -> bool {
    match pixel_near(place, height, width) {
        Some((row, column)) => exists|d: F64| #[trigger]
            gap.ensures((x, y, row, column), d) && cell == (if outside(radius, d) {
                None::<usize>
            } else {
                Some((row * width + column) as usize)
            }),
        None => cell is None,
    }
}

/// Whether `cell` is the source pixel of a target pixel. `locate` gives the column and
/// the row of a position among the source pixels, `gap` the distance of a position from
/// the centre of the source pixel in a row and a column.
pub open spec fn is_area_cell<
    L: Fn(F64, F64) -> (F64, F64),
    G: Fn(F64, F64, usize, usize) -> F64,
>(
    g: AreaGridView,
    t: int,
    radius: Option<F64>,
    height: usize,
    width: usize,
    locate: L,
    gap: G,
    cell: Option<usize>,
) -> bool {
    exists|place: (F64, F64)| #[trigger]
        locate.ensures((pixel_lon(g, t), pixel_lat(g, t)), place) && is_taken(
            pixel_lon(g, t),
            pixel_lat(g, t),
            place,
            radius,
            height,
            width,
            gap,
            cell,
        )
}

/// Whether `cells` are the source pixels of the target pixels.
pub open spec fn are_area_cells<
    L: Fn(F64, F64) -> (F64, F64),
    G: Fn(F64, F64, usize, usize) -> F64,
>(
    g: AreaGridView,
    radius: Option<F64>,
    height: usize,
    width: usize,
    locate: L,
    gap: G,
    cells: Seq<Option<usize>>,
) -> bool {
    &&& cells.len() == g.area.height * g.area.width
    &&& forall|t: int|
        0 <= t < cells.len() ==> is_area_cell(
            g,
            t,
            radius,
            height,
            width,
            locate,
            gap,
            #[trigger] cells[t],
        )
}

/// The source pixel for a position, where there is one.
fn find_area_cell<L: Fn(F64, F64) -> (F64, F64), G: Fn(F64, F64, usize, usize) -> F64>(
    x: F64,
    y: F64,
    radius: Option<F64>,
    height: usize,
    width: usize,
    locate: &L,
    gap: &G,
) -> (r: Option<usize>)
    requires
        height * width <= usize::MAX,
        locate.requires((x, y)),
        forall|row: usize, column: usize| #[trigger] gap.requires((x, y, row, column)),
    ensures
        exists|place: (F64, F64)| #[trigger]
            locate.ensures((x, y), place) && is_taken(x, y, place, radius, height, width, *gap, r),
        r is Some ==> r->Some_0 < height * width,
{
    let place = locate(x, y);
    assert(locate.ensures((x, y), place));
    match nearest_source_pixel(place, height, width) {
        Some((row, column)) => {
            assert(0 <= row * width && row * width + column < height * width) by (nonlinear_arith)
                requires
                    row < height,
                    column < width,
            ;
            let d = gap(x, y, row, column);
            assert(gap.ensures((x, y, row, column), d));
            let cell: Option<usize> = if is_outside(radius, d) {
                None
            } else {
                Some(row * width + column)
            };
            assert(is_taken(x, y, place, radius, height, width, *gap, cell));
            cell
        },
        None => {
            assert(is_taken(x, y, place, radius, height, width, *gap, None));
            None
        },
    }
}

fn find_area_cells<L: Fn(F64, F64) -> (F64, F64), G: Fn(F64, F64, usize, usize) -> F64>(
    destination: &AreaGrid,
    radius: Option<F64>,
    height: usize,
    width: usize,
    locate: &L,
    gap: &G,
) -> (r: Vec<Option<usize>>)
    requires
        height * width <= usize::MAX,
        forall|x: F64, y: F64| #[trigger] locate.requires((x, y)),
        forall|x: F64, y: F64, row: usize, column: usize| #[trigger]
            gap.requires((x, y, row, column)),
    ensures
        are_area_cells(destination@, radius, height, width, *locate, *gap, r@),
        cells_within(r@, (height * width) as nat),
{
    proof {
        use_type_invariant(destination);
    }
    let (dst_height, dst_width) = destination.shape();
    let size: usize = dst_height * dst_width;
    let ghost g = destination@;
    let mut cells: Vec<Option<usize>> = Vec::new();
    let mut t: usize = 0;
    while t < size
        invariant
            t <= size,
            size == g.area.height * g.area.width,
            g == destination@,
            crate::area::area_grid_ok(g),
            dst_width == g.area.width,
            height * width <= usize::MAX,
            forall|x: F64, y: F64| #[trigger] locate.requires((x, y)),
            forall|x: F64, y: F64, row: usize, column: usize| #[trigger]
                gap.requires((x, y, row, column)),
            cells@.len() == t,
            forall|u: int|
                0 <= u < t ==> is_area_cell(
                    g,
                    u,
                    radius,
                    height,
                    width,
                    *locate,
                    *gap,
                    #[trigger] cells@[u],
                ),
            cells_within(cells@, (height * width) as nat),
        decreases size - t,
    {
        proof {
            assert(t % dst_width < dst_width && t / dst_width < g.area.height)
                by (nonlinear_arith)
                requires
                    t < g.area.height * dst_width,
                    dst_width > 0,
            ;
        }
        let x = destination.x()[t % dst_width];
        let y = destination.y()[t / dst_width];
        let cell = find_area_cell(x, y, radius, height, width, locate, gap);
        proof {
            assert(x == pixel_lon(g, t as int) && y == pixel_lat(g, t as int));
            let place = choose|place: (F64, F64)| #[trigger]
                locate.ensures((x, y), place) && is_taken(
                    x,
                    y,
                    place,
                    radius,
                    height,
                    width,
                    *gap,
                    cell,
                );
            assert(locate.ensures((pixel_lon(g, t as int), pixel_lat(g, t as int)), place));
            assert(is_area_cell(g, t as int, radius, height, width, *locate, *gap, cell));
        }
        cells.push(cell);
        t = t + 1;
    }
    cells
}

/// The text of the error for a plane that does not have the shape of the source.
pub open spec fn shape_text(
    what: Seq<char>,
    shape: (usize, usize),
    kind: Seq<char>,
    expected: (usize, usize),
) -> Seq<char> {
    what + pair_notation(shape) + kind + pair_notation(expected)
}

/// The error for a plane that does not have the shape of the source.
pub fn shape_error(what: &str, shape: (usize, usize), kind: &str, expected: (usize, usize)) -> (r:
    RustySatError)
    ensures
        r@ == ErrorView::InvalidInput(shape_text(what@, shape, kind@, expected)),
{
    let a = pair_text(shape);
    let b = pair_text(expected);
    let text = join4(what, a.as_str(), kind, b.as_str());
    RustySatError::invalid_input(text.as_str())
}

/// The height and the width of an area.
pub open spec fn area_size(a: AreaView) -> (usize, usize) {
    (a.height, a.width)
}

/// Whether `r` is the plane of the nearest source pixels, or the error for a plane of
/// another shape.
pub open spec fn area_nearest_outcome<L: Fn(F64, F64) -> (F64, F64), G: Fn(F64, F64, usize, usize) -> F64>(
    r: Result<DataGrid>,
    a: ArrayView<F64>,
    source: AreaView,
    g: AreaGridView,
    radius: Option<F64>,
    fill: F64,
    policy: MissingValuePolicy,
    locate: L,
    gap: G,
) -> bool {
    if plane_size(a) != area_size(source) {
        is_invalid(
            r,
            shape_text(
                "source grid shape "@,
                plane_size(a),
                " does not match source area shape "@,
                area_size(source),
            ),
        )
    } else {
        exists|cells: Seq<Option<usize>>| #[trigger]
            are_area_cells(g, radius, source.height, source.width, locate, gap, cells) && r is Ok && r->Ok_0@
                == resampled_plane(
                Some(a),
                g,
                cell_values(a.values, cells, fill),
                cell_flags(a.mask, cells, policy),
            )
    }
}

/// The plane of the source pixels nearest to the target pixels.
pub fn resample_area_nearest_with_policy<L: Fn(F64, F64) -> (F64, F64), G: Fn(F64, F64, usize, usize) -> F64>(
    source_grid: &DataGrid,
    source: &AreaDefinition,
    destination: &AreaGrid,
    radius_of_influence: Option<F64>,
    fill_value: F64,
    missing_value_policy: MissingValuePolicy,
    locate: &L,
    gap: &G,
) -> (r: Result<DataGrid>)
    requires
        is_plane(source_grid@),
        forall|x: F64, y: F64| #[trigger] locate.requires((x, y)),
        forall|x: F64, y: F64, row: usize, column: usize| #[trigger]
            gap.requires((x, y, row, column)),
    ensures
        area_nearest_outcome(
            r,
            source_grid@,
            source@,
            destination@,
            radius_of_influence,
            fill_value,
            missing_value_policy,
            *locate,
            *gap,
        ),
{
    proof {
        use_type_invariant(source_grid);
    }
    let shape = grid_shape(source_grid);
    let expected = source.shape();
    if shape.0 != expected.0 || shape.1 != expected.1 {
        return Err(
            shape_error(
                "source grid shape ",
                shape,
                " does not match source area shape ",
                expected,
            ),
        );
    }
    let cells = find_area_cells(
        destination,
        radius_of_influence,
        shape.0,
        shape.1,
        locate,
        gap,
    );
    sample_cells(source_grid, destination, &cells, fill_value, missing_value_policy)
}

/// The plane of the source pixels nearest to the target pixels, with a value for those
/// without one.
pub fn resample_area_nearest<L: Fn(F64, F64) -> (F64, F64), G: Fn(F64, F64, usize, usize) -> F64>(
    source_grid: &DataGrid,
    source: &AreaDefinition,
    destination: &AreaGrid,
    radius_of_influence: Option<F64>,
    fill_value: F64,
    locate: &L,
    gap: &G,
) -> (r: Result<DataGrid>)
    requires
        is_plane(source_grid@),
        forall|x: F64, y: F64| #[trigger] locate.requires((x, y)),
        forall|x: F64, y: F64, row: usize, column: usize| #[trigger]
            gap.requires((x, y, row, column)),
    ensures
        area_nearest_outcome(
            r,
            source_grid@,
            source@,
            destination@,
            radius_of_influence,
            fill_value,
            MissingValuePolicy::FillValue,
            *locate,
            *gap,
        ),
{
    resample_area_nearest_with_policy(
        source_grid,
        source,
        destination,
        radius_of_influence,
        fill_value,
        MissingValuePolicy::FillValue,
        locate,
        gap,
    )
}

/// The plane of the source pixels nearest to the target pixels, with a mask over those
/// without one.
pub fn resample_area_nearest_masked_missing<L: Fn(F64, F64) -> (F64, F64), G: Fn(F64, F64, usize, usize) -> F64>(
    source_grid: &DataGrid,
    source: &AreaDefinition,
    destination: &AreaGrid,
    radius_of_influence: Option<F64>,
    locate: &L,
    gap: &G,
) -> (r: Result<DataGrid>)
    requires
        is_plane(source_grid@),
        forall|x: F64, y: F64| #[trigger] locate.requires((x, y)),
        forall|x: F64, y: F64, row: usize, column: usize| #[trigger]
            gap.requires((x, y, row, column)),
    ensures
        area_nearest_outcome(
            r,
            source_grid@,
            source@,
            destination@,
            radius_of_influence,
            F64 { bits: NAN_BITS_64 },
            MissingValuePolicy::Mask,
            *locate,
            *gap,
        ),
{
    resample_area_nearest_with_policy(
        source_grid,
        source,
        destination,
        radius_of_influence,
        F64 { bits: NAN_BITS_64 },
        MissingValuePolicy::Mask,
        locate,
        gap,
    )
}

/// Where the pixel `i` of a plane lies among its chunks: the chunk and the place in it.
pub open spec fn chunk_place(c: ChunkView, i: int) -> (int, int, int, int) {
    let y = i / (c.width as int);
    let x = i % (c.width as int);
    (
        y / (c.chunk_y as int),
        x / (c.chunk_x as int),
        y % (c.chunk_y as int),
        x % (c.chunk_x as int),
    )
}

/// The value of a pixel in its chunk; the fill value where the chunk does not reach it.
pub open spec fn chunk_value(chunk: ArrayView<F64>, ly: int, lx: int, fill: F64) -> F64 {
    if ly < plane_size(chunk).0 && lx < plane_size(chunk).1 {
        chunk.values[ly * plane_size(chunk).1 + lx]
    } else {
        fill
    }
}

/// Whether a pixel is masked in its chunk.
pub open spec fn chunk_masked(chunk: ArrayView<F64>, ly: int, lx: int) -> bool {
    masked_in(chunk.mask, ly * plane_size(chunk).1 + lx)
}

/// Whether `chunks` holds what was read for each chunk that some cell needs.
pub open spec fn chunks_read<R: Fn(usize, usize) -> Result<DataGrid>>(
    c: ChunkView,
    cells: Seq<Option<usize>>,
    read: R,
    chunks: Map<(int, int), ArrayView<F64>>,
) -> bool {
    forall|t: int|
        0 <= t < cells.len() && (#[trigger] cells[t]) is Some ==> {
            let (cy, cx, _, _) = chunk_place(c, cells[t]->Some_0 as int);
            chunks.contains_key((cy, cx)) && is_chunk(read, cy, cx, chunks[(cy, cx)])
        }
}

/// Whether a reading of a chunk gives `g`.
pub open spec fn reads_chunk<R: Fn(usize, usize) -> Result<DataGrid>>(
    read: R,
    cy: int,
    cx: int,
    g: DataGrid,
) -> bool {
    read.ensures((cy as usize, cx as usize), Ok(g))
}

/// Whether a reading of a chunk gives `chunk`.
pub open spec fn is_chunk<R: Fn(usize, usize) -> Result<DataGrid>>(
    read: R,
    cy: int,
    cx: int,
    chunk: ArrayView<F64>,
) -> bool {
    exists|g: DataGrid| #[trigger] reads_chunk(read, cy, cx, g) && g@ == chunk
}

/// Whether a reading of a chunk that some cell needs fails with `e`.
pub open spec fn chunk_fails<R: Fn(usize, usize) -> Result<DataGrid>>(
    c: ChunkView,
    cells: Seq<Option<usize>>,
    read: R,
    e: RustySatError,
) -> bool {
    exists|t: int|
        0 <= t < cells.len() && (#[trigger] cells[t]) is Some && read.ensures(
            (
                chunk_place(c, cells[t]->Some_0 as int).0 as usize,
                chunk_place(c, cells[t]->Some_0 as int).1 as usize,
            ),
            Err(e),
        )
}

/// The values of target pixels from the chunks of their source pixels.
pub open spec fn chunk_values(
    c: ChunkView,
    cells: Seq<Option<usize>>,
    chunks: Map<(int, int), ArrayView<F64>>,
    fill: F64,
) -> Seq<F64> {
    Seq::new(
        cells.len(),
        |t: int|
            match cells[t] {
                Some(i) => {
                    let (cy, cx, ly, lx) = chunk_place(c, i as int);
                    chunk_value(chunks[(cy, cx)], ly, lx, fill)
                },
                None => fill,
            },
    )
}

/// Which target pixels are masked, by the chunks of their source pixels.
pub open spec fn chunk_flags(
    c: ChunkView,
    cells: Seq<Option<usize>>,
    chunks: Map<(int, int), ArrayView<F64>>,
    policy: MissingValuePolicy,
) -> Seq<bool> {
    Seq::new(
        cells.len(),
        |t: int|
            match cells[t] {
                Some(i) => {
                    let (cy, cx, ly, lx) = chunk_place(c, i as int);
                    chunk_masked(chunks[(cy, cx)], ly, lx)
                },
                None => policy.masks(),
            },
    )
}

/// The chunks that have been read, each once.
struct SourceChunkCache {
    layout: ChunkGrid,
    across: usize,
    chunks: Vec<Option<DataGrid>>,
}

impl SourceChunkCache {
    spec fn ok<R: Fn(usize, usize) -> Result<DataGrid>>(
        &self,
        read: R,
        seen: Map<(int, int), ArrayView<F64>>,
    ) -> bool {
        let c = self.layout@;
        &&& self.across == c.across()
        &&& self.chunks@.len() == c.down() * c.across()
        &&& forall|cy: int, cx: int| #[trigger]
            seen.contains_key((cy, cx)) <==> self.has(cy, cx)
        &&& forall|cy: int, cx: int| #[trigger]
            seen.contains_key((cy, cx)) ==> self.chunks@[cy * c.across() + cx]->Some_0@ == seen[(
                cy,
                cx,
            )] && is_plane(seen[(cy, cx)]) && is_chunk(read, cy, cx, seen[(cy, cx)])
    }

    spec fn has(&self, cy: int, cx: int) -> bool {
        let c = self.layout@;
        0 <= cy < c.down() && 0 <= cx < c.across() && self.chunks@[cy * c.across() + cx] is Some
    }

    fn new<R: Fn(usize, usize) -> Result<DataGrid>>(layout: ChunkGrid, read: &R) -> (r: Self)
        ensures
            r.ok(*read, Map::empty()),
            r.layout@ == layout@,
    {
        let (down, across) = layout.counts();
        let ghost c = layout@;
        let n: usize = down * across;
        let mut chunks: Vec<Option<DataGrid>> = Vec::new();
        let mut i: usize = 0;
        while i < n
            invariant
                i <= n,
                chunks@.len() == i,
                forall|j: int| 0 <= j < i ==> (#[trigger] chunks@[j]) is None,
            decreases n - i,
        {
            chunks.push(None);
            i = i + 1;
        }
        let r = SourceChunkCache { layout, across, chunks };
        proof {
            assert forall|cy: int, cx: int| !(#[trigger] r.has(cy, cx)) by {
                if 0 <= cy < c.down() && 0 <= cx < c.across() {
                    lemma_chunk_number(c, cy, cx);
                }
            }
        }
        r
    }

    /// Reads a chunk, if it has not been read yet.
    fn load<R: Fn(usize, usize) -> Result<DataGrid>>(
        &mut self,
        cy: usize,
        cx: usize,
        read: &R,
        Ghost(seen): Ghost<Map<(int, int), ArrayView<F64>>>,
    ) -> (r: Result<Ghost<Map<(int, int), ArrayView<F64>>>>)
        requires
            old(self).ok(*read, seen),
            cy < old(self).layout@.down(),
            cx < old(self).layout@.across(),
            forall|a: usize, b: usize| #[trigger] read.requires((a, b)),
            forall|a: usize, b: usize, g: DataGrid| #[trigger]
                read.ensures((a, b), Ok(g)) ==> is_plane(g@),
        ensures
            final(self).layout@ == old(self).layout@,
            r is Err ==> read.ensures((cy, cx), Err(r->Err_0)),
            r is Ok ==> {
                let after = r->Ok_0@;
                &&& final(self).ok(*read, after)
                &&& final(self).has(cy as int, cx as int)
                &&& after.contains_key((cy as int, cx as int))
                &&& forall|k: (int, int)| #[trigger]
                    seen.contains_key(k) ==> after.contains_key(k) && after[k] == seen[k]
            },
    {
        let ghost c = self.layout@;
        proof {
            lemma_chunk_number(c, cy as int, cx as int);
            assert(0 <= cy * self.across <= cy * self.across + cx);
        }
        let _count: usize = self.chunks.len();
        let k: usize = cy * self.across + cx;
        if self.chunks[k].is_some() {
            assert(self.has(cy as int, cx as int));
            return Ok(Ghost(seen));
        }
        let got = read(cy, cx);
        match got {
            Ok(chunk) => {
                proof {
                    assert(reads_chunk(*read, cy as int, cx as int, chunk));
                    assert(is_chunk(*read, cy as int, cx as int, chunk@));
                }
                let ghost before = *self;
                let ghost after = seen.insert((cy as int, cx as int), chunk@);
                self.chunks.set(k, Some(chunk));
                proof {
                    assert(!before.has(cy as int, cx as int));
                    assert forall|a: int, b: int| #[trigger]
                        after.contains_key((a, b)) <==> self.has(a, b) by {
                        if 0 <= a < c.down() && 0 <= b < c.across() && (a, b) != (
                            cy as int,
                            cx as int,
                        ) {
                            lemma_chunk_number(c, a, b);
                            lemma_chunk_numbers_differ(c, a, b, cy as int, cx as int);
                            assert(seen.contains_key((a, b)) <==> before.has(a, b));
                        } else {
                            assert(seen.contains_key((a, b)) <==> before.has(a, b));
                        }
                    }
                    assert forall|a: int, b: int| #[trigger] after.contains_key((a, b)) implies
                        self.chunks@[a * c.across() + b]->Some_0@ == after[(a, b)] && is_plane(
                        after[(a, b)],
                    ) && is_chunk(*read, a, b, after[(a, b)]) by {
                        if (a, b) != (cy as int, cx as int) {
                            assert(seen.contains_key((a, b)));
                            assert(before.has(a, b));
                            lemma_chunk_number(c, a, b);
                            lemma_chunk_numbers_differ(c, a, b, cy as int, cx as int);
                        }
                    }
                }
                Ok(Ghost(after))
            },
            Err(e) => Err(e),
        }
    }

    /// The value of a pixel in a chunk that has been read, and whether it is masked.
    fn value_in<R: Fn(usize, usize) -> Result<DataGrid>>(
        &self,
        cy: usize,
        cx: usize,
        ly: usize,
        lx: usize,
        fill_value: F64,
        read: &R,
        Ghost(seen): Ghost<Map<(int, int), ArrayView<F64>>>,
    ) -> (r: (F64, bool))
        requires
            self.ok(*read, seen),
            seen.contains_key((cy as int, cx as int)),
        ensures
            r.0 == chunk_value(seen[(cy as int, cx as int)], ly as int, lx as int, fill_value),
            r.1 == chunk_masked(seen[(cy as int, cx as int)], ly as int, lx as int),
    {
        let ghost c = self.layout@;
        proof {
            assert(self.has(cy as int, cx as int));
            lemma_chunk_number(c, cy as int, cx as int);
            assert(0 <= cy * self.across <= cy * self.across + cx);
        }
        let _count: usize = self.chunks.len();
        let k: usize = cy * self.across + cx;
        match &self.chunks[k] {
            Some(chunk) => {
                let (height, width) = grid_shape(chunk);
                let total: usize = chunk.len();
                if lx >= total || (width > 0 && ly > (total - lx) / width) {
                    proof {
                        use_type_invariant(chunk);
                        lemma_beyond(ly as int, lx as int, height as int, width as int);
                    }
                    return (fill_value, false);
                }
                proof {
                    use_type_invariant(chunk);
                    assert(0 <= ly * width && ly * width + lx <= total) by {
                        lemma_within(ly as int, lx as int, width as int, total as int);
                    }
                }
                let i: usize = ly * width + lx;
                let value = if ly < height && lx < width {
                    proof {
                        assert(ly * width + lx < height * width) by (nonlinear_arith)
                            requires
                                ly < height,
                                lx < width,
                        ;
                    }
                    chunk.values()[i]
                } else {
                    fill_value
                };
                let masked = match chunk.is_masked(i) {
                    Some(b) => b,
                    None => false,
                };
                (value, masked)
            },
            None => (fill_value, false),
        }
    }
}

/// A place beyond the end of a chunk is not in it.
proof fn lemma_beyond(ly: int, lx: int, height: int, width: int)
    requires
        0 <= ly,
        0 <= lx,
        0 <= height,
        0 <= width,
        lx >= height * width || (width > 0 && ly > (height * width - lx) / width),
    ensures
        !(ly < height && lx < width),
        ly * width + lx >= height * width,
{
    if lx >= height * width {
        assert(0 <= ly * width) by (nonlinear_arith)
            requires
                0 <= ly,
                0 <= width,
        ;
        if ly < height && lx < width {
            assert(height * width >= width) by (nonlinear_arith)
                requires
                    height >= 1,
                    width >= 0,
            ;
        }
    } else {
        let n = height * width - lx;
        vstd::arithmetic::div_mod::lemma_fundamental_div_mod(n, width);
        let q = n / width;
        let m = n % width;
        assert(ly * width + lx >= height * width) by (nonlinear_arith)
            requires
                n == height * width - lx,
                n == width * q + m,
                0 <= m < width,
                ly >= q + 1,
                width > 0,
        ;
        if ly < height && lx < width {
            assert(ly * width + lx < height * width) by (nonlinear_arith)
                requires
                    0 <= ly < height,
                    0 <= lx < width,
            ;
        }
    }
}

proof fn lemma_within(ly: int, lx: int, width: int, total: int)
    requires
        0 <= ly,
        0 <= lx < total,
        0 <= width,
        width > 0 ==> ly <= (total - lx) / width,
    ensures
        0 <= ly * width,
        ly * width + lx <= total,
{
    if width > 0 {
        let n = total - lx;
        vstd::arithmetic::div_mod::lemma_fundamental_div_mod(n, width);
        let q = n / width;
        let m = n % width;
        assert(0 <= ly * width && ly * width <= n) by (nonlinear_arith)
            requires
                n == width * q + m,
                0 <= m,
                0 <= ly <= q,
                width > 0,
        ;
    } else {
        assert(ly * width == 0) by (nonlinear_arith)
            requires
                width == 0,
        ;
    }
}

/// Two chunks have two numbers.
proof fn lemma_chunk_numbers_differ(c: ChunkView, a: int, b: int, cy: int, cx: int)
    requires
        0 <= b < c.across(),
        0 <= cx < c.across(),
        (a, b) != (cy, cx),
    ensures
        a * c.across() + b != cy * c.across() + cx,
{
    let n = c.across();
    if a * n + b == cy * n + cx {
        vstd::arithmetic::div_mod::lemma_fundamental_div_mod_converse(a * n + b, n, a, b);
        vstd::arithmetic::div_mod::lemma_fundamental_div_mod_converse(cy * n + cx, n, cy, cx);
    }
}

proof fn lemma_chunk_number(c: ChunkView, cy: int, cx: int)
    requires
        0 <= cy < c.down(),
        0 <= cx < c.across(),
    ensures
        0 <= cy * c.across() + cx < c.down() * c.across(),
{
    let a = c.across();
    let d = c.down();
    assert(0 <= cy * a + cx < d * a) by (nonlinear_arith)
        requires
            0 <= cy < d,
            0 <= cx < a,
    ;
}

/// Whether `r` is the plane of the nearest source pixels of a plane in chunks, or the
/// error for a plane of another shape, or that of a chunk that cannot be read.
pub open spec fn lazy_nearest_outcome<
    L: Fn(F64, F64) -> (F64, F64),
    G: Fn(F64, F64, usize, usize) -> F64,
    R: Fn(usize, usize) -> Result<DataGrid>,
>(
    r: Result<DataGrid>,
    c: ChunkView,
    source: AreaView,
    g: AreaGridView,
    radius: Option<F64>,
    fill: F64,
    policy: MissingValuePolicy,
    locate: L,
    gap: G,
    read: R,
) -> bool {
    if (c.height, c.width) != area_size(source) {
        is_invalid(
            r,
            shape_text(
                "lazy source grid shape "@,
                (c.height, c.width),
                " does not match source area shape "@,
                area_size(source),
            ),
        )
    } else {
        exists|cells: Seq<Option<usize>>| #[trigger]
            are_area_cells(g, radius, source.height, source.width, locate, gap, cells) && lazy_sampled(
                r,
                c,
                g,
                cells,
                fill,
                policy,
                read,
            )
    }
}

/// Whether `r` is the plane of the source pixels in `cells`, or the error of a chunk.
pub open spec fn lazy_sampled<R: Fn(usize, usize) -> Result<DataGrid>>(
    r: Result<DataGrid>,
    c: ChunkView,
    g: AreaGridView,
    cells: Seq<Option<usize>>,
    fill: F64,
    policy: MissingValuePolicy,
    read: R,
) -> bool {
    match r {
        Err(e) => chunk_fails(c, cells, read, e),
        Ok(out) => exists|chunks: Map<(int, int), ArrayView<F64>>| #[trigger]
            chunks_read(c, cells, read, chunks) && out@ == resampled_plane(
                None,
                g,
                chunk_values(c, cells, chunks, fill),
                chunk_flags(c, cells, chunks, policy),
            ),
    }
}

/// Takes the values of source pixels from the chunks that hold them.
fn sample_chunks<R: Fn(usize, usize) -> Result<DataGrid>>(
    layout: ChunkGrid,
    destination: &AreaGrid,
    cells: &Vec<Option<usize>>,
    fill_value: F64,
    policy: MissingValuePolicy,
    read: &R,
) -> (r: Result<DataGrid>)
    requires
        cells@.len() == destination@.area.height * destination@.area.width,
        cells_within(cells@, (layout@.height * layout@.width) as nat),
        forall|a: usize, b: usize| #[trigger] read.requires((a, b)),
        forall|a: usize, b: usize, g: DataGrid| #[trigger]
            read.ensures((a, b), Ok(g)) ==> is_plane(g@),
    ensures
        lazy_sampled(r, layout@, destination@, cells@, fill_value, policy, *read),
{
    proof {
        use_type_invariant(&layout);
    }
    let ghost c = layout@;
    let (chunk_y, chunk_x) = layout.chunk_shape();
    let (height, width) = layout.shape();
    let mut cache = SourceChunkCache::new(layout, read);
    let ghost mut seen: Map<(int, int), ArrayView<F64>> = Map::empty();
    let mut values: Vec<F64> = Vec::new();
    let mut flags: Vec<bool> = Vec::new();
    let mut t: usize = 0;
    while t < cells.len()
        invariant
            t <= cells@.len(),
            c == layout@,
            chunks_ok(c),
            chunk_y == c.chunk_y,
            chunk_x == c.chunk_x,
            height == c.height,
            width == c.width,
            cells_within(cells@, (c.height * c.width) as nat),
            forall|a: usize, b: usize| #[trigger] read.requires((a, b)),
            forall|a: usize, b: usize, g: DataGrid| #[trigger]
                read.ensures((a, b), Ok(g)) ==> is_plane(g@),
            cache.layout@ == c,
            cache.ok(*read, seen),
            values@.len() == t,
            flags@.len() == t,
            forall|u: int|
                0 <= u < t ==> values@[u] == #[trigger] chunk_values(c, cells@, seen, fill_value)[u],
            forall|u: int|
                0 <= u < t ==> flags@[u] == #[trigger] chunk_flags(c, cells@, seen, policy)[u],
            forall|u: int|
                0 <= u < t && (#[trigger] cells@[u]) is Some ==> seen.contains_key(
                    (
                        chunk_place(c, cells@[u]->Some_0 as int).0,
                        chunk_place(c, cells@[u]->Some_0 as int).1,
                    ),
                ),
        decreases cells@.len() - t,
    {
        match cells[t] {
            Some(i) => {
                proof {
                    assert(cells@[t as int]->Some_0 == i);
                    assert(width > 0) by (nonlinear_arith)
                        requires
                            0 <= i < height * width,
                    ;
                    assert(i / width < height && i % width < width) by (nonlinear_arith)
                        requires
                            i < height * width,
                            width > 0,
                    ;
                }
                let y: usize = i / width;
                let x: usize = i % width;
                proof {
                    lemma_pixel_in_chunk(c, y as int, x as int);
                }
                let cy: usize = y / chunk_y;
                let cx: usize = x / chunk_x;
                let ly: usize = y % chunk_y;
                let lx: usize = x % chunk_x;
                let ghost before = seen;
                let loaded = match cache.load(cy, cx, read, Ghost(seen)) {
                    Ok(m) => m,
                    Err(e) => {
                        assert(chunk_fails(c, cells@, *read, e));
                        return Err(e);
                    },
                };
                proof {
                    seen = loaded@;
                }
                let (value, masked) = cache.value_in(
                    cy,
                    cx,
                    ly,
                    lx,
                    fill_value,
                    read,
                    Ghost(seen),
                );
                values.push(value);
                flags.push(masked);
                proof {
                    assert forall|u: int| 0 <= u < t implies #[trigger] chunk_values(
                        c,
                        cells@,
                        seen,
                        fill_value,
                    )[u] == chunk_values(c, cells@, before, fill_value)[u] by {
                        if cells@[u] is Some {
                            let p = chunk_place(c, cells@[u]->Some_0 as int);
                            assert(before.contains_key((p.0, p.1)));
                        }
                    }
                    assert forall|u: int| 0 <= u < t implies #[trigger] chunk_flags(
                        c,
                        cells@,
                        seen,
                        policy,
                    )[u] == chunk_flags(c, cells@, before, policy)[u] by {
                        if cells@[u] is Some {
                            let p = chunk_place(c, cells@[u]->Some_0 as int);
                            assert(before.contains_key((p.0, p.1)));
                        }
                    }
                    assert forall|u: int| 0 <= u < t && (#[trigger] cells@[u]) is Some implies
                        seen.contains_key(
                        (
                            chunk_place(c, cells@[u]->Some_0 as int).0,
                            chunk_place(c, cells@[u]->Some_0 as int).1,
                        ),
                    ) by {
                        let p = chunk_place(c, cells@[u]->Some_0 as int);
                        assert(before.contains_key((p.0, p.1)));
                    }
                }
            },
            None => {
                values.push(fill_value);
                flags.push(policy.masks_missing());
            },
        }
        t = t + 1;
    }
    proof {
        assert(values@ =~= chunk_values(c, cells@, seen, fill_value));
        assert(flags@ =~= chunk_flags(c, cells@, seen, policy));
        assert(chunks_read(c, cells@, *read, seen));
    }
    finish_plane(None, destination, values, flags)
}

/// The plane of the source pixels nearest to the target pixels, from a plane that is
/// read in chunks: `read` gives the chunk in a row and a column of chunks. Only the
/// chunks that hold such pixels are read, each once.
pub fn resample_area_nearest_lazy_with_policy<
    L: Fn(F64, F64) -> (F64, F64),
    G: Fn(F64, F64, usize, usize) -> F64,
    R: Fn(usize, usize) -> Result<DataGrid>,
>(
    layout: ChunkGrid,
    source: &AreaDefinition,
    destination: &AreaGrid,
    radius_of_influence: Option<F64>,
    fill_value: F64,
    missing_value_policy: MissingValuePolicy,
    locate: &L,
    gap: &G,
    read: &R,
) -> (r: Result<DataGrid>)
    requires
        forall|x: F64, y: F64| #[trigger] locate.requires((x, y)),
        forall|x: F64, y: F64, row: usize, column: usize| #[trigger]
            gap.requires((x, y, row, column)),
        forall|a: usize, b: usize| #[trigger] read.requires((a, b)),
        forall|a: usize, b: usize, g: DataGrid| #[trigger]
            read.ensures((a, b), Ok(g)) ==> is_plane(g@),
    ensures
        lazy_nearest_outcome(
            r,
            layout@,
            source@,
            destination@,
            radius_of_influence,
            fill_value,
            missing_value_policy,
            *locate,
            *gap,
            *read,
        ),
{
    proof {
        use_type_invariant(&layout);
    }
    let shape = layout.shape();
    let expected = source.shape();
    if shape.0 != expected.0 || shape.1 != expected.1 {
        return Err(
            shape_error(
                "lazy source grid shape ",
                shape,
                " does not match source area shape ",
                expected,
            ),
        );
    }
    let cells = find_area_cells(
        destination,
        radius_of_influence,
        shape.0,
        shape.1,
        locate,
        gap,
    );
    let r = sample_chunks(layout, destination, &cells, fill_value, missing_value_policy, read);
    assert(are_area_cells(
        destination@,
        radius_of_influence,
        source@.height,
        source@.width,
        *locate,
        *gap,
        cells@,
    ));
    r
}

/// The plane of the nearest pixels of a plane in chunks, with a value for those without
/// one.
pub fn resample_area_nearest_lazy<
    L: Fn(F64, F64) -> (F64, F64),
    G: Fn(F64, F64, usize, usize) -> F64,
    R: Fn(usize, usize) -> Result<DataGrid>,
>(
    layout: ChunkGrid,
    source: &AreaDefinition,
    destination: &AreaGrid,
    radius_of_influence: Option<F64>,
    fill_value: F64,
    locate: &L,
    gap: &G,
    read: &R,
) -> (r: Result<DataGrid>)
    requires
        forall|x: F64, y: F64| #[trigger] locate.requires((x, y)),
        forall|x: F64, y: F64, row: usize, column: usize| #[trigger]
            gap.requires((x, y, row, column)),
        forall|a: usize, b: usize| #[trigger] read.requires((a, b)),
        forall|a: usize, b: usize, g: DataGrid| #[trigger]
            read.ensures((a, b), Ok(g)) ==> is_plane(g@),
    ensures
        lazy_nearest_outcome(
            r,
            layout@,
            source@,
            destination@,
            radius_of_influence,
            fill_value,
            MissingValuePolicy::FillValue,
            *locate,
            *gap,
            *read,
        ),
{
    resample_area_nearest_lazy_with_policy(
        layout,
        source,
        destination,
        radius_of_influence,
        fill_value,
        MissingValuePolicy::FillValue,
        locate,
        gap,
        read,
    )
}

/// The plane of the nearest pixels of a plane in chunks, with a mask over those without
/// one.
pub fn resample_area_nearest_lazy_masked_missing<
    L: Fn(F64, F64) -> (F64, F64),
    G: Fn(F64, F64, usize, usize) -> F64,
    R: Fn(usize, usize) -> Result<DataGrid>,
>(
    layout: ChunkGrid,
    source: &AreaDefinition,
    destination: &AreaGrid,
    radius_of_influence: Option<F64>,
    locate: &L,
    gap: &G,
    read: &R,
) -> (r: Result<DataGrid>)
    requires
        forall|x: F64, y: F64| #[trigger] locate.requires((x, y)),
        forall|x: F64, y: F64, row: usize, column: usize| #[trigger]
            gap.requires((x, y, row, column)),
        forall|a: usize, b: usize| #[trigger] read.requires((a, b)),
        forall|a: usize, b: usize, g: DataGrid| #[trigger]
            read.ensures((a, b), Ok(g)) ==> is_plane(g@),
    ensures
        lazy_nearest_outcome(
            r,
            layout@,
            source@,
            destination@,
            radius_of_influence,
            F64 { bits: NAN_BITS_64 },
            MissingValuePolicy::Mask,
            *locate,
            *gap,
            *read,
        ),
{
    resample_area_nearest_lazy_with_policy(
        layout,
        source,
        destination,
        radius_of_influence,
        F64 { bits: NAN_BITS_64 },
        MissingValuePolicy::Mask,
        locate,
        gap,
        read,
    )
}

/// The error with which a swath or its target is refused, if it is.
pub open spec fn swath_nearest_error(
    a: ArrayView<F64>,
    source: SwathView,
    g: AreaGridView,
) -> Option<ErrorView> {
    let projection = g.area.projection;
    if plane_size(a) != (source.height, source.width) {
        Some(
            ErrorView::InvalidInput(
                shape_text(
                    "source grid shape "@,
                    plane_size(a),
                    " does not match source swath shape "@,
                    (source.height, source.width),
                ),
            ),
        )
    } else if lonlat_error(
        projection,
        "swath nearest resampling without lon/lat destination projection metadata"@,
        "swath nearest resampling to non-lon/lat destination area"@,
    ) is Some {
        lonlat_error(
            projection,
            "swath nearest resampling without lon/lat destination projection metadata"@,
            "swath nearest resampling to non-lon/lat destination area"@,
        )
    } else if source.lons is None {
        Some(
            ErrorView::InvalidInput("swath nearest resampling requires longitude coordinates"@),
        )
    } else {
        None
    }
}

/// The error for a projection that is not one by longitude and latitude, if it is not.
pub open spec fn lonlat_error(
    projection: Map<Seq<char>, Seq<char>>,
    absent: Seq<char>,
    other: Seq<char>,
) -> Option<ErrorView> {
    if !projection.contains_key("proj"@) && !projection.contains_key("proj4"@) {
        Some(ErrorView::Unsupported(absent))
    } else {
        let proj = if projection.contains_key("proj"@) {
            projection["proj"@]
        } else {
            projection["proj4"@]
        };
        if has_part(proj, "latlong"@) || has_part(proj, "longlat"@) {
            None
        } else {
            Some(ErrorView::Unsupported(other))
        }
    }
}

/// Refuses a projection that is not one by longitude and latitude.
pub fn require_lonlat(projection: &TextMap<String>, absent: &str, other: &str) -> (r: Result<()>)
    ensures
        match lonlat_error(projection@, absent@, other@) {
            Some(e) => fails_with(r, e),
            None => r is Ok,
        },
{
    let proj = match projection.get("proj") {
        Some(text) => text,
        None => match projection.get("proj4") {
            Some(text) => text,
            None => {
                return Err(RustySatError::unsupported(absent));
            },
        },
    };
    if contains_text(proj.as_str(), "latlong") || contains_text(proj.as_str(), "longlat") {
        return Ok(());
    }
    Err(RustySatError::unsupported(other))
}

/// Whether a position is known.
pub open spec fn position_known(lons: Seq<F64>, lats: Seq<F64>, i: int) -> bool {
    lons[i].finite() && lats[i].finite()
}

/// Whether `ds` are the distances of the known positions from `(x, y)`.
pub open spec fn are_distances<D: Fn(F64, F64, F64, F64) -> F64>(
    lons: Seq<F64>,
    lats: Seq<F64>,
    x: F64,
    y: F64,
    distance: D,
    ds: Seq<F64>,
) -> bool {
    &&& ds.len() == lons.len()
    &&& forall|i: int|
        0 <= i < lons.len() && position_known(lons, lats, i) ==> distance.ensures(
            (lons[i], lats[i], x, y),
            #[trigger] ds[i],
        )
}

/// Whether `i` is the first of the known positions below `n` with the least distance.
pub open spec fn is_first_nearest(
    lons: Seq<F64>,
    lats: Seq<F64>,
    ds: Seq<F64>,
    n: int,
    i: int,
) -> bool {
    &&& 0 <= i < n
    &&& position_known(lons, lats, i)
    &&& forall|j: int|
        0 <= j < n && position_known(lons, lats, j) ==> ds[i].total_rank() < (#[trigger] ds[j]).total_rank()
            || (ds[i].total_rank() == ds[j].total_rank() && i <= j)
}

/// Whether `cell` is the position nearest to `(x, y)`, where it lies within the radius.
pub open spec fn is_swath_cell<D: Fn(F64, F64, F64, F64) -> F64>(
    lons: Seq<F64>,
    lats: Seq<F64>,
    x: F64,
    y: F64,
    radius: Option<F64>,
    distance: D,
    cell: Option<usize>,
) -> bool {
    exists|ds: Seq<F64>| #[trigger]
        are_distances(lons, lats, x, y, distance, ds) && match cell {
            Some(i) => is_first_nearest(lons, lats, ds, lons.len() as int, i as int) && !outside(
                radius,
                ds[i as int],
            ),
            None => none_inside(lons, lats, ds, radius),
        }
}

/// Whether the nearest of the known positions, if there is one, lies outside the radius.
pub open spec fn none_inside(
    lons: Seq<F64>,
    lats: Seq<F64>,
    ds: Seq<F64>,
    radius: Option<F64>,
) -> bool {
    forall|k: int| #[trigger]
        is_first_nearest(lons, lats, ds, lons.len() as int, k) ==> outside(radius, ds[k])
}

/// The first of the known positions nearest to `(x, y)`, where it lies within the radius.
fn nearest_swath_cell<D: Fn(F64, F64, F64, F64) -> F64>(
    lons: &Vec<F64>,
    lats: &Vec<F64>,
    x: F64,
    y: F64,
    radius: Option<F64>,
    distance: &D,
) -> (r: Option<usize>)
    requires
        lons@.len() == lats@.len(),
        forall|a: F64, b: F64, c: F64, d: F64| #[trigger] distance.requires((a, b, c, d)),
    ensures
        is_swath_cell(lons@, lats@, x, y, radius, *distance, r),
        r is Some ==> r->Some_0 < lons@.len(),
{
    let ghost mut ds: Seq<F64> = Seq::empty();
    let mut best: Option<(usize, F64)> = None;
    let mut i: usize = 0;
    while i < lons.len()
        invariant
            i <= lons@.len(),
            lons@.len() == lats@.len(),
            forall|a: F64, b: F64, c: F64, d: F64| #[trigger] distance.requires((a, b, c, d)),
            ds.len() == i,
            forall|j: int|
                0 <= j < i && position_known(lons@, lats@, j) ==> distance.ensures(
                    (lons@[j], lats@[j], x, y),
                    #[trigger] ds[j],
                ),
            best is Some ==> best->Some_0.1 == ds[best->Some_0.0 as int] && is_first_nearest(
                lons@,
                lats@,
                ds,
                i as int,
                best->Some_0.0 as int,
            ),
            best is None ==> forall|j: int| 0 <= j < i ==> !position_known(lons@, lats@, j),
        decreases lons@.len() - i,
    {
        let lon = lons[i];
        let lat = lats[i];
        if lon.is_finite() && lat.is_finite() {
            let d = distance(lon, lat, x, y);
            let ghost before = ds;
            proof {
                ds = ds.push(d);
                assert forall|j: int| 0 <= j < i implies ds[j] == before[j] by {}
            }
            let better = match best {
                Some((_, e)) => d.totally_before(e),
                None => true,
            };
            if better {
                best = Some((i, d));
            }
        } else {
            proof {
                let before = ds;
                ds = ds.push(lon);
                assert forall|j: int| 0 <= j < i implies ds[j] == before[j] by {}
            }
        }
        i = i + 1;
    }
    proof {
        assert(are_distances(lons@, lats@, x, y, *distance, ds));
    }
    match best {
        Some((i, d)) => {
            if is_outside(radius, d) {
                proof {
                    assert forall|k: int| #[trigger]
                        is_first_nearest(lons@, lats@, ds, lons@.len() as int, k) implies outside(
                        radius,
                        ds[k],
                    ) by {
                        assert(ds[i as int].total_rank() <= ds[k].total_rank());
                        assert(ds[k].total_rank() <= ds[i as int].total_rank());
                        crate::number::lemma_total_rank_injective(ds[k], ds[i as int]);
                    }
                }
                None
            } else {
                Some(i)
            }
        },
        None => None,
    }
}

/// Whether `cells` are the positions nearest to the target pixels.
pub open spec fn are_swath_cells<D: Fn(F64, F64, F64, F64) -> F64>(
    lons: Seq<F64>,
    lats: Seq<F64>,
    g: AreaGridView,
    radius: Option<F64>,
    distance: D,
    cells: Seq<Option<usize>>,
) -> bool {
    &&& cells.len() == g.area.height * g.area.width
    &&& forall|t: int|
        0 <= t < cells.len() ==> is_swath_cell(
            lons,
            lats,
            pixel_lon(g, t),
            pixel_lat(g, t),
            radius,
            distance,
            #[trigger] cells[t],
        )
}

/// Whether `r` is the plane of the nearest positions of a swath, or the first obstacle.
pub open spec fn swath_nearest_outcome<D: Fn(F64, F64, F64, F64) -> F64>(
    r: Result<DataGrid>,
    a: ArrayView<F64>,
    source: SwathView,
    g: AreaGridView,
    radius: Option<F64>,
    fill: F64,
    policy: MissingValuePolicy,
    distance: D,
) -> bool {
    match swath_nearest_error(a, source, g) {
        Some(e) => fails_with(r, e),
        None => exists|cells: Seq<Option<usize>>| #[trigger]
            are_swath_cells(
                source.lons->Some_0,
                source.lats->Some_0,
                g,
                radius,
                distance,
                cells,
            ) && r is Ok && r->Ok_0@ == resampled_plane(
                Some(a),
                g,
                cell_values(a.values, cells, fill),
                cell_flags(a.mask, cells, policy),
            ),
    }
}

/// The plane of the positions of a swath nearest to the target pixels. `distance` gives
/// the distance of two positions.
pub fn resample_swath_nearest_with_policy<D: Fn(F64, F64, F64, F64) -> F64>(
    source_grid: &DataGrid,
    source: &SwathDefinition,
    destination: &AreaGrid,
    radius_of_influence: Option<F64>,
    fill_value: F64,
    missing_value_policy: MissingValuePolicy,
    distance: &D,
) -> (r: Result<DataGrid>)
    requires
        is_plane(source_grid@),
        forall|a: F64, b: F64, c: F64, d: F64| #[trigger] distance.requires((a, b, c, d)),
    ensures
        swath_nearest_outcome(
            r,
            source_grid@,
            source@,
            destination@,
            radius_of_influence,
            fill_value,
            missing_value_policy,
            *distance,
        ),
{
    proof {
        use_type_invariant(source_grid);
        use_type_invariant(source);
        use_type_invariant(destination);
    }
    let shape = grid_shape(source_grid);
    let expected = source.shape();
    if shape.0 != expected.0 || shape.1 != expected.1 {
        return Err(
            shape_error(
                "source grid shape ",
                shape,
                " does not match source swath shape ",
                expected,
            ),
        );
    }
    match require_lonlat(
        destination.area().projection(),
        "swath nearest resampling without lon/lat destination projection metadata",
        "swath nearest resampling to non-lon/lat destination area",
    ) {
        Ok(()) => {},
        Err(e) => {
            return Err(e);
        },
    }
    let lons = match source.lons() {
        Some(l) => l,
        None => {
            return Err(
                RustySatError::invalid_input(
                    "swath nearest resampling requires longitude coordinates",
                ),
            );
        },
    };
    let lats = match source.lats() {
        Some(l) => l,
        None => {
            return Err(
                RustySatError::invalid_input(
                    "swath nearest resampling requires latitude coordinates",
                ),
            );
        },
    };
    let cells = find_swath_cells(destination, radius_of_influence, lons, lats, distance);
    sample_cells(source_grid, destination, &cells, fill_value, missing_value_policy)
}

fn find_swath_cells<D: Fn(F64, F64, F64, F64) -> F64>(
    destination: &AreaGrid,
    radius: Option<F64>,
    lons: &Vec<F64>,
    lats: &Vec<F64>,
    distance: &D,
) -> (r: Vec<Option<usize>>)
    requires
        lons@.len() == lats@.len(),
        forall|a: F64, b: F64, c: F64, d: F64| #[trigger] distance.requires((a, b, c, d)),
    ensures
        are_swath_cells(lons@, lats@, destination@, radius, *distance, r@),
        cells_within(r@, lons@.len()),
{
    proof {
        use_type_invariant(destination);
    }
    let (dst_height, dst_width) = destination.shape();
    let size: usize = dst_height * dst_width;
    let ghost g = destination@;
    let mut cells: Vec<Option<usize>> = Vec::new();
    let mut t: usize = 0;
    while t < size
        invariant
            t <= size,
            size == g.area.height * g.area.width,
            g == destination@,
            crate::area::area_grid_ok(g),
            dst_width == g.area.width,
            lons@.len() == lats@.len(),
            forall|a: F64, b: F64, c: F64, d: F64| #[trigger] distance.requires((a, b, c, d)),
            cells@.len() == t,
            forall|u: int|
                0 <= u < t ==> is_swath_cell(
                    lons@,
                    lats@,
                    pixel_lon(g, u),
                    pixel_lat(g, u),
                    radius,
                    *distance,
                    #[trigger] cells@[u],
                ),
            cells_within(cells@, lons@.len()),
        decreases size - t,
    {
        proof {
            assert(t % dst_width < dst_width && t / dst_width < g.area.height)
                by (nonlinear_arith)
                requires
                    t < g.area.height * dst_width,
                    dst_width > 0,
            ;
        }
        let x = destination.x()[t % dst_width];
        let y = destination.y()[t / dst_width];
        let cell = nearest_swath_cell(lons, lats, x, y, radius, distance);
        cells.push(cell);
        t = t + 1;
    }
    cells
}

/// The plane of the positions nearest to the target pixels, with a value for those
/// without one.
pub fn resample_swath_nearest<D: Fn(F64, F64, F64, F64) -> F64>(
    source_grid: &DataGrid,
    source: &SwathDefinition,
    destination: &AreaGrid,
    radius_of_influence: Option<F64>,
    fill_value: F64,
    distance: &D,
) -> (r: Result<DataGrid>)
    requires
        is_plane(source_grid@),
        forall|a: F64, b: F64, c: F64, d: F64| #[trigger] distance.requires((a, b, c, d)),
    ensures
        swath_nearest_outcome(
            r,
            source_grid@,
            source@,
            destination@,
            radius_of_influence,
            fill_value,
            MissingValuePolicy::FillValue,
            *distance,
        ),
{
    resample_swath_nearest_with_policy(
        source_grid,
        source,
        destination,
        radius_of_influence,
        fill_value,
        MissingValuePolicy::FillValue,
        distance,
    )
}

/// The plane of the positions nearest to the target pixels, with a mask over those
/// without one.
pub fn resample_swath_nearest_masked_missing<D: Fn(F64, F64, F64, F64) -> F64>(
    source_grid: &DataGrid,
    source: &SwathDefinition,
    destination: &AreaGrid,
    radius_of_influence: Option<F64>,
    distance: &D,
) -> (r: Result<DataGrid>)
    requires
        is_plane(source_grid@),
        forall|a: F64, b: F64, c: F64, d: F64| #[trigger] distance.requires((a, b, c, d)),
    ensures
        swath_nearest_outcome(
            r,
            source_grid@,
            source@,
            destination@,
            radius_of_influence,
            F64 { bits: NAN_BITS_64 },
            MissingValuePolicy::Mask,
            *distance,
        ),
{
    resample_swath_nearest_with_policy(
        source_grid,
        source,
        destination,
        radius_of_influence,
        F64 { bits: NAN_BITS_64 },
        MissingValuePolicy::Mask,
        distance,
    )
}

/// A resampler by the nearest pixel of an area, as a mathematical value.
#[verifier::ext_equal]
pub struct NearestAreaResamplerView {
    pub source: AreaView,
    pub radius: Option<F64>,
    pub fill_value: F64,
    pub policy: MissingValuePolicy,
}

/// A resampler by the nearest pixel of an area.
#[derive(Debug)]
pub struct NearestAreaResampler {
    source: AreaDefinition,
    radius_of_influence: Option<F64>,
    fill_value: F64,
    missing_value_policy: MissingValuePolicy,
}

impl View for NearestAreaResampler {
    type V = NearestAreaResamplerView;

    closed spec fn view(&self) -> NearestAreaResamplerView {
        NearestAreaResamplerView {
            source: self.source@,
            radius: self.radius_of_influence,
            fill_value: self.fill_value,
            policy: self.missing_value_policy,
        }
    }
}

impl Clone for NearestAreaResampler {
    fn clone(&self) -> (r: Self)
        ensures
            r@ == self@,
    {
        NearestAreaResampler {
            source: self.source.clone(),
            radius_of_influence: self.radius_of_influence,
            fill_value: self.fill_value,
            missing_value_policy: self.missing_value_policy,
        }
    }
}

/// Whether `r` is a data set of an area on another one, by the nearest pixels, or the first
/// obstacle.
pub open spec fn nearest_area_outcome<
    L: Fn(F64, F64) -> (F64, F64),
    G: Fn(F64, F64, usize, usize) -> F64,
>(
    r: Result<Dataset>,
    d: DatasetView,
    p: NearestAreaResamplerView,
    g: AreaGridView,
    locate: L,
    gap: G,
) -> bool {
    match nearest_dataset_error(d, p.source, g) {
        Some(e) => fails_with(r, e),
        None => exists|cells: Seq<Option<usize>>| #[trigger]
            are_area_cells(g, p.radius, p.source.height, p.source.width, locate, gap, cells)
                && r is Ok && r->Ok_0@ == sampled_dataset(
                d,
                g,
                cells,
                p.fill_value,
                p.policy,
                "nearest_area"@,
            ),
    }
}

/// Whether `r` is a data set of a swath on an area, by the nearest positions, or the first
/// obstacle.
pub open spec fn nearest_swath_outcome<D: Fn(F64, F64, F64, F64) -> F64>(
    r: Result<Dataset>,
    d: DatasetView,
    p: NearestSwathResamplerView,
    g: AreaGridView,
    distance: D,
) -> bool {
    match grid_of(d) {
        None => is_invalid(r, "nearest resampling requires dataset grid values"@),
        Some(a) => match swath_nearest_error(a, p.source, g) {
            Some(e) => fails_with(r, e),
            None => exists|cells: Seq<Option<usize>>| #[trigger]
                are_swath_cells(
                    p.source.lons->Some_0,
                    p.source.lats->Some_0,
                    g,
                    p.radius,
                    distance,
                    cells,
                ) && r is Ok && r->Ok_0@ == sampled_dataset(
                    d,
                    g,
                    cells,
                    p.fill_value,
                    p.policy,
                    "nearest_swath"@,
                ),
        },
    }
}

impl NearestAreaResampler {
    pub fn new(source: AreaDefinition) -> (r: Self)
        ensures
            r@ == (NearestAreaResamplerView {
                source: source@,
                radius: None,
                fill_value: F64 { bits: NAN_BITS_64 },
                policy: MissingValuePolicy::FillValue,
            }),
    {
        NearestAreaResampler {
            source,
            radius_of_influence: None,
            fill_value: F64 { bits: NAN_BITS_64 },
            missing_value_policy: MissingValuePolicy::FillValue,
        }
    }

    pub fn with_radius_of_influence(self, radius_of_influence: F64) -> (r: Result<Self>)
        ensures
            radius_of_influence.less(F64 { bits: 0 }) ==> is_invalid(
                r,
                "radius_of_influence must be non-negative"@,
            ),
            !radius_of_influence.less(F64 { bits: 0 }) ==> r is Ok && r->Ok_0@ == (NearestAreaResamplerView {
                radius: Some(radius_of_influence),
                ..self@
            }),
    {
        if radius_of_influence.lt(F64 { bits: 0 }) {
            return Err(RustySatError::invalid_input("radius_of_influence must be non-negative"));
        }
        Ok(
            NearestAreaResampler {
                source: self.source,
                radius_of_influence: Some(radius_of_influence),
                fill_value: self.fill_value,
                missing_value_policy: self.missing_value_policy,
            },
        )
    }

    pub fn with_fill_value(self, fill_value: F64) -> (r: Self)
        ensures
            r@ == (NearestAreaResamplerView {
                fill_value,
                policy: MissingValuePolicy::FillValue,
                ..self@
            }),
    {
        NearestAreaResampler {
            source: self.source,
            radius_of_influence: self.radius_of_influence,
            fill_value,
            missing_value_policy: MissingValuePolicy::FillValue,
        }
    }

    pub fn with_masked_missing(self) -> (r: Self)
        ensures
            r@ == (NearestAreaResamplerView { policy: MissingValuePolicy::Mask, ..self@ }),
    {
        NearestAreaResampler {
            source: self.source,
            radius_of_influence: self.radius_of_influence,
            fill_value: self.fill_value,
            missing_value_policy: MissingValuePolicy::Mask,
        }
    }

    pub fn source(&self) -> (r: &AreaDefinition)
        ensures
            r@ == self@.source,
    {
        &self.source
    }

    pub fn name(&self) -> (r: &str)
        ensures
            r@ == "nearest_area"@,
    {
        "nearest_area"
    }

    /// A data set on another area of the same projection.
    pub fn resample<L: Fn(F64, F64) -> (F64, F64), G: Fn(F64, F64, usize, usize) -> F64>(
        &self,
        dataset: &Dataset,
        destination: &AreaGrid,
        locate: &L,
        gap: &G,
    ) -> (r: Result<Dataset>)
        requires
            grid_of(dataset@) is Some ==> is_plane(grid_of(dataset@)->Some_0),
            forall|x: F64, y: F64| #[trigger] locate.requires((x, y)),
            forall|x: F64, y: F64, row: usize, column: usize| #[trigger]
                gap.requires((x, y, row, column)),
        ensures
            nearest_area_outcome(r, dataset@, self@, destination@, *locate, *gap),
    {
        let source_grid = match dataset.data() {
            Some(g) => g,
            None => {
                return Err(
                    RustySatError::invalid_input("nearest resampling requires dataset grid values"),
                );
            },
        };
        let shape = grid_shape(source_grid);
        let expected = self.source.shape();
        if shape.0 != expected.0 || shape.1 != expected.1 {
            return Err(
                shape_error(
                    "dataset grid shape ",
                    shape,
                    " does not match source area shape ",
                    expected,
                ),
            );
        }
        if !self.source.projection().same_as(destination.area().projection()) {
            return Err(
                RustySatError::unsupported("nearest area resampling between different projections"),
            );
        }
        let resampled = match resample_area_nearest_with_policy(
            source_grid,
            &self.source,
            destination,
            self.radius_of_influence,
            self.fill_value,
            self.missing_value_policy,
            locate,
            gap,
        ) {
            Ok(g) => g,
            Err(e) => {
                return Err(e);
            },
        };
        Ok(
            Dataset::resampled_from(
                dataset,
                crate::array::AnyDataArray::F64(resampled),
                destination.area().id(),
                "nearest_area",
            ),
        )
    }
}

/// The error with which a data set is refused, if it is.
pub open spec fn nearest_dataset_error(
    d: DatasetView,
    source: AreaView,
    g: AreaGridView,
) -> Option<ErrorView> {
    match grid_of(d) {
        None => Some(
            ErrorView::InvalidInput("nearest resampling requires dataset grid values"@),
        ),
        Some(a) => if plane_size(a) != area_size(source) {
            Some(
                ErrorView::InvalidInput(
                    shape_text(
                        "dataset grid shape "@,
                        plane_size(a),
                        " does not match source area shape "@,
                        area_size(source),
                    ),
                ),
            )
        } else if source.projection != g.area.projection {
            Some(ErrorView::Unsupported("nearest area resampling between different projections"@))
        } else {
            None
        },
    }
}

/// A data set with the values of the source pixels in `cells`.
pub open spec fn sampled_dataset(
    d: DatasetView,
    g: AreaGridView,
    cells: Seq<Option<usize>>,
    fill: F64,
    policy: MissingValuePolicy,
    resampler: Seq<char>,
) -> DatasetView {
    let a = grid_of(d)->Some_0;
    resampled(
        d,
        crate::array::AnyArrayView::F64(
            resampled_plane(
                Some(a),
                g,
                cell_values(a.values, cells, fill),
                cell_flags(a.mask, cells, policy),
            ),
        ),
        g.area.id,
        resampler,
    )
}

/// A resampler by the nearest pixel of a swath, as a mathematical value.
#[verifier::ext_equal]
pub struct NearestSwathResamplerView {
    pub source: SwathView,
    pub radius: Option<F64>,
    pub fill_value: F64,
    pub policy: MissingValuePolicy,
}

/// A resampler by the nearest pixel of a swath.
#[derive(Debug)]
pub struct NearestSwathResampler {
    source: SwathDefinition,
    radius_of_influence: Option<F64>,
    fill_value: F64,
    missing_value_policy: MissingValuePolicy,
}

impl View for NearestSwathResampler {
    type V = NearestSwathResamplerView;

    closed spec fn view(&self) -> NearestSwathResamplerView {
        NearestSwathResamplerView {
            source: self.source@,
            radius: self.radius_of_influence,
            fill_value: self.fill_value,
            policy: self.missing_value_policy,
        }
    }
}

impl Clone for NearestSwathResampler {
    fn clone(&self) -> (r: Self)
        ensures
            r@ == self@,
    {
        NearestSwathResampler {
            source: self.source.clone(),
            radius_of_influence: self.radius_of_influence,
            fill_value: self.fill_value,
            missing_value_policy: self.missing_value_policy,
        }
    }
}

impl NearestSwathResampler {
    pub fn new(source: SwathDefinition) -> (r: Self)
        ensures
            r@ == (NearestSwathResamplerView {
                source: source@,
                radius: None,
                fill_value: F64 { bits: NAN_BITS_64 },
                policy: MissingValuePolicy::FillValue,
            }),
    {
        NearestSwathResampler {
            source,
            radius_of_influence: None,
            fill_value: F64 { bits: NAN_BITS_64 },
            missing_value_policy: MissingValuePolicy::FillValue,
        }
    }

    pub fn with_radius_of_influence(self, radius_of_influence: F64) -> (r: Result<Self>)
        ensures
            radius_of_influence.less(F64 { bits: 0 }) ==> is_invalid(
                r,
                "radius_of_influence must be non-negative"@,
            ),
            !radius_of_influence.less(F64 { bits: 0 }) ==> r is Ok && r->Ok_0@ == (NearestSwathResamplerView {
                radius: Some(radius_of_influence),
                ..self@
            }),
    {
        if radius_of_influence.lt(F64 { bits: 0 }) {
            return Err(RustySatError::invalid_input("radius_of_influence must be non-negative"));
        }
        Ok(
            NearestSwathResampler {
                source: self.source,
                radius_of_influence: Some(radius_of_influence),
                fill_value: self.fill_value,
                missing_value_policy: self.missing_value_policy,
            },
        )
    }

    pub fn with_fill_value(self, fill_value: F64) -> (r: Self)
        ensures
            r@ == (NearestSwathResamplerView {
                fill_value,
                policy: MissingValuePolicy::FillValue,
                ..self@
            }),
    {
        NearestSwathResampler {
            source: self.source,
            radius_of_influence: self.radius_of_influence,
            fill_value,
            missing_value_policy: MissingValuePolicy::FillValue,
        }
    }

    pub fn with_masked_missing(self) -> (r: Self)
        ensures
            r@ == (NearestSwathResamplerView { policy: MissingValuePolicy::Mask, ..self@ }),
    {
        NearestSwathResampler {
            source: self.source,
            radius_of_influence: self.radius_of_influence,
            fill_value: self.fill_value,
            missing_value_policy: MissingValuePolicy::Mask,
        }
    }

    pub fn source(&self) -> (r: &SwathDefinition)
        ensures
            r@ == self@.source,
    {
        &self.source
    }

    pub fn name(&self) -> (r: &str)
        ensures
            r@ == "nearest_swath"@,
    {
        "nearest_swath"
    }

    /// A data set of a swath on an area.
    pub fn resample<D: Fn(F64, F64, F64, F64) -> F64>(
        &self,
        dataset: &Dataset,
        destination: &AreaGrid,
        distance: &D,
    ) -> (r: Result<Dataset>)
        requires
            grid_of(dataset@) is Some ==> is_plane(grid_of(dataset@)->Some_0),
            forall|a: F64, b: F64, c: F64, d: F64| #[trigger] distance.requires((a, b, c, d)),
        ensures
            nearest_swath_outcome(r, dataset@, self@, destination@, *distance),
    {
        let source_grid = match dataset.data() {
            Some(g) => g,
            None => {
                return Err(
                    RustySatError::invalid_input("nearest resampling requires dataset grid values"),
                );
            },
        };
        let resampled = match resample_swath_nearest_with_policy(
            source_grid,
            &self.source,
            destination,
            self.radius_of_influence,
            self.fill_value,
            self.missing_value_policy,
            distance,
        ) {
            Ok(g) => g,
            Err(e) => {
                return Err(e);
            },
        };
        Ok(
            Dataset::resampled_from(
                dataset,
                crate::array::AnyDataArray::F64(resampled),
                destination.area().id(),
                "nearest_swath",
            ),
        )
    }
}

/// Whether a pixel of a chunk is the pixel of the plane at its place.
pub open spec fn part_agrees(
    plane: ArrayView<F64>,
    c: ChunkView,
    cy: int,
    cx: int,
    chunk: ArrayView<F64>,
    ly: int,
    lx: int,
) -> bool {
    let i = (cy * c.chunk_y + ly) * c.width + cx * c.chunk_x + lx;
    let j = ly * c.columns(cx) + lx;
    &&& chunk.values[j] == plane.values[i]
    &&& masked_in(chunk.mask, j) == masked_in(plane.mask, i)
}

/// Whether a chunk is the part of a plane at a row and a column of chunks.
pub open spec fn is_part(
    plane: ArrayView<F64>,
    c: ChunkView,
    cy: int,
    cx: int,
    chunk: ArrayView<F64>,
) -> bool {
    &&& plane_size(chunk).0 == c.rows(cy)
    &&& plane_size(chunk).1 == c.columns(cx)
    &&& forall|ly: int, lx: int|
        0 <= ly < c.rows(cy) && 0 <= lx < c.columns(cx) ==> #[trigger] part_agrees(
            plane,
            c,
            cy,
            cx,
            chunk,
            ly,
            lx,
        )
}

/// A pixel of a plane is found at its place in the chunk that holds it.
pub proof fn lemma_pixel_of_part(
    plane: ArrayView<F64>,
    c: ChunkView,
    i: int,
    chunk: ArrayView<F64>,
)
    requires
        chunks_ok(c),
        0 <= i < c.height * c.width,
        is_part(plane, c, chunk_place(c, i).0, chunk_place(c, i).1, chunk),
    ensures
        ({
            let (cy, cx, ly, lx) = chunk_place(c, i);
            let j = ly * plane_size(chunk).1 + lx;
            &&& 0 <= ly < plane_size(chunk).0
            &&& 0 <= lx < plane_size(chunk).1
            &&& chunk.values[j] == plane.values[i]
            &&& masked_in(chunk.mask, j) == masked_in(plane.mask, i)
        }),
{
    let w = c.width as int;
    assert(w > 0) by (nonlinear_arith)
        requires
            0 <= i < c.height * w,
            w >= 0,
    ;
    let y = i / w;
    let x = i % w;
    vstd::arithmetic::div_mod::lemma_fundamental_div_mod(i, w);
    assert(0 <= y < c.height) by (nonlinear_arith)
        requires
            i == w * y + x,
            0 <= x < w,
            0 <= i < c.height * w,
    ;
    lemma_pixel_in_chunk(c, y, x);
    let (cy, cx, ly, lx) = chunk_place(c, i);
    vstd::arithmetic::div_mod::lemma_fundamental_div_mod(y, c.chunk_y as int);
    vstd::arithmetic::div_mod::lemma_fundamental_div_mod(x, c.chunk_x as int);
    assert(cy * c.chunk_y + ly == y) by (nonlinear_arith)
        requires
            y == c.chunk_y * cy + ly,
    ;
    assert(cx * c.chunk_x + lx == x) by (nonlinear_arith)
        requires
            x == c.chunk_x * cx + lx,
    ;
    assert(y * w + x == i) by (nonlinear_arith)
        requires
            i == w * y + x,
    ;
    assert((cy * c.chunk_y + ly) * c.width + cx * c.chunk_x + lx == i);
    assert(part_agrees(plane, c, cy, cx, chunk, ly, lx));
}

/// Reading a plane in chunks gives what the whole plane gives: where each chunk that is
/// needed is its part of the plane, the values and the flags of the target pixels are
/// the same.
pub proof fn lemma_chunks_agree_with_plane(
    plane: ArrayView<F64>,
    c: ChunkView,
    cells: Seq<Option<usize>>,
    chunks: Map<(int, int), ArrayView<F64>>,
    fill: F64,
    policy: MissingValuePolicy,
)
    requires
        chunks_ok(c),
        cells_within(cells, (c.height * c.width) as nat),
        forall|t: int|
            0 <= t < cells.len() && (#[trigger] cells[t]) is Some ==> {
                let (cy, cx, _, _) = chunk_place(c, cells[t]->Some_0 as int);
                is_part(plane, c, cy, cx, chunks[(cy, cx)])
            },
    ensures
        chunk_values(c, cells, chunks, fill) == cell_values(plane.values, cells, fill),
        chunk_flags(c, cells, chunks, policy) == cell_flags(plane.mask, cells, policy),
{
    assert forall|t: int| 0 <= t < cells.len() implies {
        &&& chunk_values(c, cells, chunks, fill)[t] == cell_values(plane.values, cells, fill)[t]
        &&& chunk_flags(c, cells, chunks, policy)[t] == cell_flags(plane.mask, cells, policy)[t]
    } by {
        if cells[t] is Some {
            let i = cells[t]->Some_0 as int;
            let (cy, cx, _, _) = chunk_place(c, i);
            lemma_pixel_of_part(plane, c, i, chunks[(cy, cx)]);
        }
    }
    assert(chunk_values(c, cells, chunks, fill) =~= cell_values(plane.values, cells, fill));
    assert(chunk_flags(c, cells, chunks, policy) =~= cell_flags(plane.mask, cells, policy));
}

/// Resampling takes values and makes none: each value of a target pixel is one of the
/// source's, or the fill value.
pub proof fn lemma_cell_values_taken(
    values: Seq<F64>,
    cells: Seq<Option<usize>>,
    fill: F64,
    t: int,
)
    requires
        cells_within(cells, values.len()),
        0 <= t < cells.len(),
    ensures
        cell_values(values, cells, fill)[t] == fill || values.contains(
            cell_values(values, cells, fill)[t],
        ),
{
    if cells[t] is Some {
        assert(values[cells[t]->Some_0 as int] == cell_values(values, cells, fill)[t]);
    }
}

/// Whether a pixel of a result is hidden by a mask.
pub open spec fn hidden_in(a: ArrayView<F64>, t: int) -> bool {
    a.mask is Some && a.mask->Some_0[t]
}

/// Whether the pixel in row `y` and column `x` of a result shows the source pixel nearest to
/// its place: no other row and no other column is nearer to the place. It has the fill value,
/// and is hidden where missing values are masked, where it has no place or where the pixel is
/// farther than the radius. A source pixel that is hidden stays so.
pub open spec fn shows_nearest_pixel<
    L: Fn(F64, F64) -> (F64, F64),
    G: Fn(F64, F64, usize, usize) -> F64,
>(
    out: ArrayView<F64>,
    a: ArrayView<F64>,
    height: usize,
    width: usize,
    g: AreaGridView,
    radius: Option<F64>,
    fill: F64,
    masks: bool,
    locate: L,
    gap: G,
    y: int,
    x: int,
    place: (F64, F64),
    row: usize,
    column: usize,
    d: F64,
) -> bool {
    let t = y * g.area.width + x;
    let i = row * width + column;
    &&& out.values.len() == g.area.height * g.area.width
    &&& locate.ensures((g.x[x], g.y[y]), place)
    &&& if place.0.finite() && place.1.finite() {
        &&& row < height && column < width
        &&& forall|k: int|
            0 <= k < height ==> #[trigger] apart(place.1, row as int) <= #[trigger] apart(place.1, k)
                && (k > row ==> apart(place.1, row as int) < apart(place.1, k))
        &&& forall|k: int|
            0 <= k < width ==> #[trigger] apart(place.0, column as int) <= #[trigger] apart(
                place.0,
                k,
            ) && (k > column ==> apart(place.0, column as int) < apart(place.0, k))
        &&& gap.ensures((g.x[x], g.y[y], row, column), d)
        &&& if radius is Some && radius->Some_0.less(d) {
            out.values[t] == fill && hidden_in(out, t) == masks
        } else {
            out.values[t] == a.values[i] && hidden_in(out, t) == hidden_in(a, i)
        }
    } else {
        out.values[t] == fill && hidden_in(out, t) == masks
    }
}

proof fn lemma_cells_show_nearest<
    L: Fn(F64, F64) -> (F64, F64),
    G: Fn(F64, F64, usize, usize) -> F64,
>(
    out: ArrayView<F64>,
    a: ArrayView<F64>,
    height: usize,
    width: usize,
    g: AreaGridView,
    radius: Option<F64>,
    fill: F64,
    policy: MissingValuePolicy,
    locate: L,
    gap: G,
    cells: Seq<Option<usize>>,
    y: int,
    x: int,
) -> (w: ((F64, F64), usize, usize, F64))
    requires
        are_area_cells(g, radius, height, width, locate, gap, cells),
        out.values == cell_values(a.values, cells, fill),
        out.mask == mask_of(cell_flags(a.mask, cells, policy)),
        a.mask is Some ==> a.mask->Some_0.len() == a.values.len(),
        a.values.len() == height * width,
        height * width <= usize::MAX,
        0 < height && 0 < width,
        0 <= y < g.area.height,
        0 <= x < g.area.width,
    ensures
        shows_nearest_pixel(
            out,
            a,
            height,
            width,
            g,
            radius,
            fill,
            policy is Mask,
            locate,
            gap,
            y,
            x,
            w.0,
            w.1,
            w.2,
            w.3,
        ),
{
    lemma_pixel_inside(y, x, g.area.height as int, g.area.width as int);
    let t = y * g.area.width + x;
    let flags = cell_flags(a.mask, cells, policy);
    if flags[t] {
        assert(any_set(flags));
    }
    assert(is_area_cell(g, t, radius, height, width, locate, gap, cells[t]));
    let (u, v) = (pixel_lon(g, t), pixel_lat(g, t));
    let place = choose|place: (F64, F64)| #[trigger]
        locate.ensures((u, v), place) && is_taken(
            u,
            v,
            place,
            radius,
            height,
            width,
            gap,
            cells[t],
        );
    lemma_place_is_nearest(place.1, height, 0);
    lemma_place_is_nearest(place.0, width, 0);
    if place.0.finite() && place.1.finite() {
        let row = nearest_place(place.1, height)->Some_0;
        let column = nearest_place(place.0, width)->Some_0;
        assert forall|k: int| 0 <= k < height implies #[trigger] apart(place.1, row as int)
            <= #[trigger] apart(place.1, k) && (k > row ==> apart(place.1, row as int) < apart(
            place.1,
            k,
        )) by {
            lemma_place_is_nearest(place.1, height, k);
        }
        assert forall|k: int| 0 <= k < width implies #[trigger] apart(place.0, column as int)
            <= #[trigger] apart(place.0, k) && (k > column ==> apart(place.0, column as int)
            < apart(place.0, k)) by {
            lemma_place_is_nearest(place.0, width, k);
        }
        lemma_pixel_inside(row as int, column as int, height as int, width as int);
        let d = choose|d: F64| #[trigger]
            gap.ensures((u, v, row, column), d) && cells[t] == (if outside(radius, d) {
                None::<usize>
            } else {
                Some((row * width + column) as usize)
            });
        (place, row, column, d)
    } else {
        (place, 0, 0, place.0)
    }
}

/// Resampling by the nearest pixel of an area: each target pixel shows the source pixel that
/// is nearest to its place, where it is not farther than the radius.
pub proof fn lemma_area_pixel_is_nearest<
    L: Fn(F64, F64) -> (F64, F64),
    G: Fn(F64, F64, usize, usize) -> F64,
>(
    r: Result<DataGrid>,
    a: ArrayView<F64>,
    source: AreaView,
    g: AreaGridView,
    radius: Option<F64>,
    fill: F64,
    policy: MissingValuePolicy,
    locate: L,
    gap: G,
    y: int,
    x: int,
) -> (w: ((F64, F64), usize, usize, F64))
    requires
        area_nearest_outcome(r, a, source, g, radius, fill, policy, locate, gap),
        r is Ok,
        array_ok(a),
        is_plane(a),
        area_ok(source),
        0 <= y < g.area.height,
        0 <= x < g.area.width,
    ensures
        shows_nearest_pixel(
            r->Ok_0@,
            a,
            source.height,
            source.width,
            g,
            radius,
            fill,
            policy is Mask,
            locate,
            gap,
            y,
            x,
            w.0,
            w.1,
            w.2,
            w.3,
        ),
{
    lemma_plane_len(a);
    let cells = choose|cells: Seq<Option<usize>>| #[trigger]
        are_area_cells(g, radius, source.height, source.width, locate, gap, cells) && r is Ok
            && r->Ok_0@ == resampled_plane(
            Some(a),
            g,
            cell_values(a.values, cells, fill),
            cell_flags(a.mask, cells, policy),
        );
    lemma_cells_show_nearest(
        r->Ok_0@,
        a,
        source.height,
        source.width,
        g,
        radius,
        fill,
        policy,
        locate,
        gap,
        cells,
        y,
        x,
    )
}

/// As `lemma_area_pixel_is_nearest`, for a data set, which keeps its descriptions and is
/// described by the area and the resampler.
pub proof fn lemma_area_dataset_is_nearest<
    L: Fn(F64, F64) -> (F64, F64),
    G: Fn(F64, F64, usize, usize) -> F64,
>(
    r: Result<Dataset>,
    d: DatasetView,
    p: NearestAreaResamplerView,
    g: AreaGridView,
    locate: L,
    gap: G,
    y: int,
    x: int,
) -> (w: ((F64, F64), usize, usize, F64))
    requires
        nearest_area_outcome(r, d, p, g, locate, gap),
        r is Ok,
        grid_of(d) matches Some(a) ==> array_ok(a) && is_plane(a),
        area_ok(p.source),
        0 <= y < g.area.height,
        0 <= x < g.area.width,
    ensures
        d.array is Some,
        d.array->Some_0 is F64,
        r->Ok_0@.array is Some,
        r->Ok_0@.array->Some_0 is F64,
        shows_nearest_pixel(
            r->Ok_0@.array->Some_0->F64_0,
            d.array->Some_0->F64_0,
            p.source.height,
            p.source.width,
            g,
            p.radius,
            p.fill_value,
            p.policy is Mask,
            locate,
            gap,
            y,
            x,
            w.0,
            w.1,
            w.2,
            w.3,
        ),
        is_on_area(r->Ok_0@, d, g, "nearest_area"@),
        keeps_axes(r->Ok_0@.array->Some_0->F64_0, g),
{
    let a = grid_of(d)->Some_0;
    lemma_plane_len(a);
    let cells = choose|cells: Seq<Option<usize>>| #[trigger]
        are_area_cells(g, p.radius, p.source.height, p.source.width, locate, gap, cells)
            && r is Ok && r->Ok_0@ == sampled_dataset(
            d,
            g,
            cells,
            p.fill_value,
            p.policy,
            "nearest_area"@,
        );
    lemma_resampled(
        d,
        r->Ok_0@.array->Some_0,
        g,
        "nearest_area"@,
    );
    lemma_axes_kept(PlaneNames::Area, Some(a), g);
    lemma_cells_show_nearest(
        r->Ok_0@.array->Some_0->F64_0,
        a,
        p.source.height,
        p.source.width,
        g,
        p.radius,
        p.fill_value,
        p.policy,
        locate,
        gap,
        cells,
        y,
        x,
    )
}

/// Whether the distances of all known positions are numbers.
pub open spec fn all_measured(lons: Seq<F64>, lats: Seq<F64>, ds: Seq<F64>) -> bool {
    forall|k: int|
        0 <= k < lons.len() && lons[k].finite() && lats[k].finite() ==> !(#[trigger] ds[k]).nan()
}

/// Whether the pixel in row `y` and column `x` of a result shows the position of a swath that
/// is nearest to it: `ds` are the distances of the known positions, and `found` is the first
/// of those with the least distance, where it is not farther than the radius.
pub open spec fn shows_nearest_position<D: Fn(F64, F64, F64, F64) -> F64>(
    out: ArrayView<F64>,
    a: ArrayView<F64>,
    lons: Seq<F64>,
    lats: Seq<F64>,
    g: AreaGridView,
    radius: Option<F64>,
    fill: F64,
    masks: bool,
    distance: D,
    y: int,
    x: int,
    ds: Seq<F64>,
    found: Option<int>,
) -> bool {
    let t = y * g.area.width + x;
    &&& out.values.len() == g.area.height * g.area.width
    &&& ds.len() == lons.len()
    &&& forall|i: int|
        0 <= i < lons.len() && lons[i].finite() && lats[i].finite() ==> distance.ensures(
            (lons[i], lats[i], g.x[x], g.y[y]),
            #[trigger] ds[i],
        )
    &&& match found {
        Some(i) => {
            &&& 0 <= i < lons.len() && lons[i].finite() && lats[i].finite()
            &&& forall|j: int|
                0 <= j < lons.len() && lons[j].finite() && lats[j].finite() ==> !(
                #[trigger] ds[j]).less(ds[i]) && (j < i ==> ds[j].bits != ds[i].bits)
            &&& !(radius is Some && radius->Some_0.less(ds[i]))
            &&& out.values[t] == a.values[i]
            &&& hidden_in(out, t) == hidden_in(a, i)
        },
        None => {
            &&& all_measured(lons, lats, ds) ==> forall|j: int|
                0 <= j < lons.len() && (#[trigger] lons[j]).finite() && lats[j].finite()
                    ==> radius is Some && radius->Some_0.less(ds[j])
            &&& out.values[t] == fill
            &&& hidden_in(out, t) == masks
        },
    }
}

proof fn lemma_has_first_nearest(lons: Seq<F64>, lats: Seq<F64>, ds: Seq<F64>, n: int) -> (k: int)
    requires
        0 <= n <= lons.len(),
        exists|j: int| 0 <= j < n && #[trigger] position_known(lons, lats, j),
    ensures
        is_first_nearest(lons, lats, ds, n, k),
    decreases n,
{
    let m = n - 1;
    if exists|j: int| 0 <= j < m && #[trigger] position_known(lons, lats, j) {
        let k = lemma_has_first_nearest(lons, lats, ds, m);
        if position_known(lons, lats, m) && ds[m].total_rank() < ds[k].total_rank() {
            assert forall|j: int| 0 <= j < n && position_known(lons, lats, j) implies ds[m].total_rank()
                < (#[trigger] ds[j]).total_rank() || (ds[m].total_rank() == ds[j].total_rank() && m
                <= j) by {
                if j < m {
                    assert(ds[k].total_rank() < ds[j].total_rank() || ds[k].total_rank()
                        == ds[j].total_rank());
                }
            }
            m
        } else {
            k
        }
    } else {
        assert forall|j: int| 0 <= j < n && position_known(lons, lats, j) implies j == m by {}
        m
    }
}

proof fn lemma_cells_show_position<D: Fn(F64, F64, F64, F64) -> F64>(
    out: ArrayView<F64>,
    a: ArrayView<F64>,
    lons: Seq<F64>,
    lats: Seq<F64>,
    g: AreaGridView,
    radius: Option<F64>,
    fill: F64,
    policy: MissingValuePolicy,
    distance: D,
    cells: Seq<Option<usize>>,
    y: int,
    x: int,
) -> (w: (Seq<F64>, Option<int>))
    requires
        are_swath_cells(lons, lats, g, radius, distance, cells),
        out.values == cell_values(a.values, cells, fill),
        out.mask == mask_of(cell_flags(a.mask, cells, policy)),
        a.mask is Some ==> a.mask->Some_0.len() == a.values.len(),
        a.values.len() == lons.len(),
        lons.len() == lats.len(),
        0 <= y < g.area.height,
        0 <= x < g.area.width,
    ensures
        shows_nearest_position(
            out,
            a,
            lons,
            lats,
            g,
            radius,
            fill,
            policy is Mask,
            distance,
            y,
            x,
            w.0,
            w.1,
        ),
{
    lemma_pixel_inside(y, x, g.area.height as int, g.area.width as int);
    let t = y * g.area.width + x;
    let flags = cell_flags(a.mask, cells, policy);
    if flags[t] {
        assert(any_set(flags));
    }
    let (u, v) = (pixel_lon(g, t), pixel_lat(g, t));
    assert(is_swath_cell(lons, lats, u, v, radius, distance, cells[t]));
    let ds = choose|ds: Seq<F64>| #[trigger]
        are_distances(lons, lats, u, v, distance, ds) && match cells[t] {
            Some(i) => is_first_nearest(lons, lats, ds, lons.len() as int, i as int) && !outside(
                radius,
                ds[i as int],
            ),
            None => none_inside(lons, lats, ds, radius),
        };
    let found = match cells[t] {
        Some(i) => Some(i as int),
        None => None,
    };
    assert forall|i: int| 0 <= i < lons.len() && lons[i].finite() && lats[i].finite() implies distance.ensures(
        (lons[i], lats[i], g.x[x], g.y[y]),
        #[trigger] ds[i],
    ) by {
        assert(position_known(lons, lats, i));
    }
    match cells[t] {
        Some(i) => {
            assert forall|j: int|
                0 <= j < lons.len() && lons[j].finite() && lats[j].finite() implies !(
            #[trigger] ds[j]).less(ds[i as int]) && (j < i ==> ds[j].bits != ds[i as int].bits) by {
                assert(position_known(lons, lats, j));
                assert(ds[i as int].total_rank() < ds[j].total_rank() || (
                ds[i as int].total_rank() == ds[j].total_rank() && i <= j));
            }
        },
        None => {
            assert forall|j: int|
                all_measured(lons, lats, ds) && 0 <= j < lons.len() && (#[trigger] lons[j]).finite()
                    && lats[j].finite() implies radius is Some && radius->Some_0.less(ds[j]) by {
                assert(position_known(lons, lats, j));
                let k = lemma_has_first_nearest(lons, lats, ds, lons.len() as int);
                assert(outside(radius, ds[k]));
                assert(ds[k].total_rank() <= ds[j].total_rank());
            }
        },
    }
    (ds, found)
}

/// Resampling by the nearest position of a swath: each target pixel shows the known position
/// with the least distance, the first of those that are as near, where it is not farther than
/// the radius.
pub proof fn lemma_swath_position_is_nearest<D: Fn(F64, F64, F64, F64) -> F64>(
    r: Result<DataGrid>,
    a: ArrayView<F64>,
    source: SwathView,
    g: AreaGridView,
    radius: Option<F64>,
    fill: F64,
    policy: MissingValuePolicy,
    distance: D,
    y: int,
    x: int,
) -> (w: (Seq<F64>, Option<int>))
    requires
        swath_nearest_outcome(r, a, source, g, radius, fill, policy, distance),
        r is Ok,
        array_ok(a),
        is_plane(a),
        source.lons is Some ==> source.lats is Some && source.lons->Some_0.len() == source.height
            * source.width && source.lats->Some_0.len() == source.height * source.width,
        0 <= y < g.area.height,
        0 <= x < g.area.width,
    ensures
        shows_nearest_position(
            r->Ok_0@,
            a,
            source.lons->Some_0,
            source.lats->Some_0,
            g,
            radius,
            fill,
            policy is Mask,
            distance,
            y,
            x,
            w.0,
            w.1,
        ),
{
    lemma_plane_len(a);
    let cells = choose|cells: Seq<Option<usize>>| #[trigger]
        are_swath_cells(
            source.lons->Some_0,
            source.lats->Some_0,
            g,
            radius,
            distance,
            cells,
        ) && r is Ok && r->Ok_0@ == resampled_plane(
            Some(a),
            g,
            cell_values(a.values, cells, fill),
            cell_flags(a.mask, cells, policy),
        );
    lemma_cells_show_position(
        r->Ok_0@,
        a,
        source.lons->Some_0,
        source.lats->Some_0,
        g,
        radius,
        fill,
        policy,
        distance,
        cells,
        y,
        x,
    )
}

/// As `lemma_swath_position_is_nearest`, for a data set.
pub proof fn lemma_swath_dataset_is_nearest<D: Fn(F64, F64, F64, F64) -> F64>(
    r: Result<Dataset>,
    d: DatasetView,
    p: NearestSwathResamplerView,
    g: AreaGridView,
    distance: D,
    y: int,
    x: int,
) -> (w: (Seq<F64>, Option<int>))
    requires
        nearest_swath_outcome(r, d, p, g, distance),
        r is Ok,
        grid_of(d) matches Some(a) ==> array_ok(a) && is_plane(a),
        p.source.lons is Some ==> p.source.lats is Some && p.source.lons->Some_0.len()
            == p.source.height * p.source.width && p.source.lats->Some_0.len() == p.source.height
            * p.source.width,
        0 <= y < g.area.height,
        0 <= x < g.area.width,
    ensures
        d.array is Some,
        d.array->Some_0 is F64,
        r->Ok_0@.array is Some,
        r->Ok_0@.array->Some_0 is F64,
        shows_nearest_position(
            r->Ok_0@.array->Some_0->F64_0,
            d.array->Some_0->F64_0,
            p.source.lons->Some_0,
            p.source.lats->Some_0,
            g,
            p.radius,
            p.fill_value,
            p.policy is Mask,
            distance,
            y,
            x,
            w.0,
            w.1,
        ),
        is_on_area(r->Ok_0@, d, g, "nearest_swath"@),
        keeps_axes(r->Ok_0@.array->Some_0->F64_0, g),
{
    let a = grid_of(d)->Some_0;
    lemma_plane_len(a);
    let cells = choose|cells: Seq<Option<usize>>| #[trigger]
        are_swath_cells(
            p.source.lons->Some_0,
            p.source.lats->Some_0,
            g,
            p.radius,
            distance,
            cells,
        ) && r is Ok && r->Ok_0@ == sampled_dataset(
            d,
            g,
            cells,
            p.fill_value,
            p.policy,
            "nearest_swath"@,
        );
    lemma_resampled(d, r->Ok_0@.array->Some_0, g, "nearest_swath"@);
    lemma_axes_kept(PlaneNames::Area, Some(a), g);
    lemma_cells_show_position(
        r->Ok_0@.array->Some_0->F64_0,
        a,
        p.source.lons->Some_0,
        p.source.lats->Some_0,
        g,
        p.radius,
        p.fill_value,
        p.policy,
        distance,
        cells,
        y,
        x,
    )
}

/// Whether a projection is one by longitude and latitude: its text, that of `proj` before that
/// of `proj4`, has one of the two names of such projections in it.
pub open spec fn by_lonlat(projection: Map<Seq<char>, Seq<char>>) -> bool {
    exists|name: Seq<char>, at: int|
        #![trigger projection.contains_key(name), projection[name].subrange(at, at + 7)]
        (name == "proj"@ || (name == "proj4"@ && !projection.contains_key("proj"@)))
            && projection.contains_key(name) && 0 <= at <= projection[name].len() - 7 && (
        projection[name].subrange(at, at + 7) == "latlong"@ || projection[name].subrange(at, at + 7)
            == "longlat"@)
}

/// Exactly the projections by longitude and latitude are accepted as such.
pub proof fn lemma_by_lonlat(
    projection: Map<Seq<char>, Seq<char>>,
    absent: Seq<char>,
    other: Seq<char>,
)
    ensures
        lonlat_error(projection, absent, other) is None <==> by_lonlat(projection),
{
    reveal_strlit("latlong");
    reveal_strlit("longlat");
    reveal_strlit("proj");
    reveal_strlit("proj4");
    let name = if projection.contains_key("proj"@) {
        "proj"@
    } else {
        "proj4"@
    };
    let text = projection[name];
    if lonlat_error(projection, absent, other) is None {
        let part = if has_part(text, "latlong"@) {
            "latlong"@
        } else {
            "longlat"@
        };
        let at = choose|at: int| #[trigger] stands_at(text, part, at);
        assert(text.subrange(at, at + 7) =~= part);
        assert(projection.contains_key(name));
    }
    if by_lonlat(projection) {
        let (found, at) = choose|found: Seq<char>, at: int|
            #![trigger projection.contains_key(found), projection[found].subrange(at, at + 7)]
            (found == "proj"@ || (found == "proj4"@ && !projection.contains_key("proj"@)))
                && projection.contains_key(found) && 0 <= at <= projection[found].len() - 7 && (
            projection[found].subrange(at, at + 7) == "latlong"@ || projection[found].subrange(
                at,
                at + 7,
            ) == "longlat"@);
        assert(found == name);
        if text.subrange(at, at + 7) == "latlong"@ {
            assert(stands_at(text, "latlong"@, at));
        } else {
            assert(stands_at(text, "longlat"@, at));
        }
    }
}

} // verus!
