//! Resampling by the weighted mean of the four source pixels around a position.

use crate::area::{AreaDefinition, AreaGrid, AreaGridView, AreaView};
use crate::array::{
    any_set, array_ok, counts, has_value, lemma_plane_len, valid_value, AnyArrayView, AnyDataArray,
    ArrayView, DataGrid,
};
use crate::assemble::{finish_plane, is_plane, keeps_axes, lemma_axes_kept, resampled_plane};
use crate::dataset::{grid_of, is_on_area, lemma_resampled, resampled, Dataset, DatasetView};
use crate::error::{fails_with, ErrorView, Result, RustySatError};
use crate::nd_utils::lemma_pixel_inside;
use crate::nearest::{area_size, grid_shape, plane_size, shape_error, shape_text};
use crate::neighbour_search::{pixel_lat, pixel_lon};
use crate::number::{F64, NAN_BITS_64};
use crate::rounding::{
    cell_along, is_reached, lemma_floor_and_ceil, lemma_places_enclose, places_around, reaches,
};
use vstd::prelude::*;

verus! {

/// What becomes of a target pixel without four source pixels.
#[derive(Clone, Copy, Debug, PartialEq, Eq, Structural)]
pub enum BilinearMissingPolicy {
    FillValue,
    Mask,
}

impl BilinearMissingPolicy {
    pub open spec fn masks(self) -> bool {
        self is Mask
    }

    pub fn masks_missing(self) -> (r: bool)
        ensures
            r == self.masks(),
    {
        match self {
            BilinearMissingPolicy::FillValue => false,
            BilinearMissingPolicy::Mask => true,
        }
    }
}

/// The rows and the columns of the pixels around a place, and the place.
#[derive(Clone, Copy, Debug, PartialEq)]
pub struct BilinearCell {
    pub y0: usize,
    pub x0: usize,
    pub y1: usize,
    pub x1: usize,
    pub x: F64,
    pub y: F64,
}

/// The cell around a place, its column and its row, where it lies inside the source.
pub open spec fn cell_at(place: (F64, F64), height: usize, width: usize) -> Option<BilinearCell> {
    match (places_around(place.1, height), places_around(place.0, width)) {
        (Some((y0, y1)), Some((x0, x1))) => Some(
            BilinearCell { y0, x0, y1, x1, x: place.0, y: place.1 },
        ),
        _ => None,
    }
}

/// The cell of pixels around a place, where it lies inside the source.
pub fn cell_around(place: (F64, F64), height: usize, width: usize) -> (r: Option<BilinearCell>)
    ensures
        r == cell_at(place, height, width),
        r is Some ==> r->Some_0.y0 < height && r->Some_0.y1 < height && r->Some_0.x0 < width
            && r->Some_0.x1 < width,
{
    let rows = cell_along(place.1, height);
    let columns = cell_along(place.0, width);
    match (rows, columns) {
        (Some((y0, y1)), Some((x0, x1))) => Some(
            BilinearCell { y0, x0, y1, x1, x: place.0, y: place.1 },
        ),
        _ => None,
    }
}

/// Whether the four pixels of a cell have values that count.
pub open spec fn cell_counts(
    values: Seq<F64>,
    mask: Option<Seq<bool>>,
    width: usize,
    c: BilinearCell,
) -> bool {
    &&& counts(values, mask, c.y0 * width + c.x0)
    &&& counts(values, mask, c.y0 * width + c.x1)
    &&& counts(values, mask, c.y1 * width + c.x0)
    &&& counts(values, mask, c.y1 * width + c.x1)
}

/// Whether `mix` makes `v` of the values of the four pixels of a cell.
pub open spec fn is_mixed<M: Fn(F64, F64, F64, F64, BilinearCell) -> F64>(
    values: Seq<F64>,
    width: usize,
    c: BilinearCell,
    mix: M,
    v: F64,
) -> bool {
    mix.ensures(
        (
            values[c.y0 * width + c.x0],
            values[c.y0 * width + c.x1],
            values[c.y1 * width + c.x0],
            values[c.y1 * width + c.x1],
            c,
        ),
        v,
    )
}

/// Whether `sample` is the weighted mean at a target pixel. `locate` gives the column and
/// the row of a position among the source pixels; there is none outside the source and
/// none where a pixel does not count.
pub open spec fn is_bilinear_sample<
    L: Fn(F64, F64) -> (F64, F64),
    M: Fn(F64, F64, F64, F64, BilinearCell) -> F64,
>(
    a: ArrayView<F64>,
    height: usize,
    width: usize,
    g: AreaGridView,
    t: int,
    locate: L,
    mix: M,
    sample: Option<F64>,
) -> bool {
    exists|place: (F64, F64)| #[trigger]
        locate.ensures((pixel_lon(g, t), pixel_lat(g, t)), place) && match cell_at(
            place,
            height,
            width,
        ) {
            Some(c) => if cell_counts(a.values, a.mask, width, c) {
                sample is Some && is_mixed(a.values, width, c, mix, sample->Some_0)
            } else {
                sample is None
            },
            None => sample is None,
        }
}

/// Whether `samples` are the weighted means at the target pixels.
pub open spec fn are_bilinear_samples<
    L: Fn(F64, F64) -> (F64, F64),
    M: Fn(F64, F64, F64, F64, BilinearCell) -> F64,
>(
    a: ArrayView<F64>,
    height: usize,
    width: usize,
    g: AreaGridView,
    locate: L,
    mix: M,
    samples: Seq<Option<F64>>,
) -> bool {
    &&& samples.len() == g.area.height * g.area.width
    &&& forall|t: int|
        0 <= t < samples.len() ==> is_bilinear_sample(
            a,
            height,
            width,
            g,
            t,
            locate,
            mix,
            #[trigger] samples[t],
        )
}

/// The samples, with the fill value where there is none.
pub open spec fn sample_values(samples: Seq<Option<F64>>, fill: F64) -> Seq<F64> {
    Seq::new(
        samples.len(),
        |t: int|
            match samples[t] {
                Some(v) => v,
                None => fill,
            },
    )
}

/// Which pixels are masked: those without a sample, where the policy says so.
pub open spec fn sample_flags(
    samples: Seq<Option<F64>>,
    policy: BilinearMissingPolicy,
) -> Seq<bool> {
    Seq::new(samples.len(), |t: int| samples[t] is None && policy.masks())
}

proof fn lemma_cell_index(y: usize, x: usize, height: usize, width: usize)
    requires
        y < height,
        x < width,
        height * width <= usize::MAX,
    ensures
        0 <= y * width,
        y * width + x < height * width,
{
    assert(0 <= y * width && y * width + x < height * width) by (nonlinear_arith)
        requires
            y < height,
            x < width,
    ;
}

/// The weighted mean of the pixels of a cell, where all of them count.
fn mix_cell<M: Fn(F64, F64, F64, F64, BilinearCell) -> F64>(
    source: &DataGrid,
    height: usize,
    width: usize,
    c: BilinearCell,
    mix: &M,
) -> (r: Option<F64>)
    requires
        height * width <= usize::MAX,
        c.y0 < height && c.y1 < height && c.x0 < width && c.x1 < width,
        forall|a: F64, b: F64, d: F64, e: F64, c: BilinearCell| #[trigger]
            mix.requires((a, b, d, e, c)),
    ensures
        if cell_counts(source@.values, source@.mask, width, c) {
            r is Some && is_mixed(source@.values, width, c, *mix, r->Some_0)
        } else {
            r is None
        },
{
    proof {
        lemma_cell_index(c.y0, c.x0, height, width);
        lemma_cell_index(c.y0, c.x1, height, width);
        lemma_cell_index(c.y1, c.x0, height, width);
        lemma_cell_index(c.y1, c.x1, height, width);
    }
    let v00 = match valid_value(source, c.y0 * width + c.x0) {
        Some(v) => v,
        None => {
            return None;
        },
    };
    let v01 = match valid_value(source, c.y0 * width + c.x1) {
        Some(v) => v,
        None => {
            return None;
        },
    };
    let v10 = match valid_value(source, c.y1 * width + c.x0) {
        Some(v) => v,
        None => {
            return None;
        },
    };
    let v11 = match valid_value(source, c.y1 * width + c.x1) {
        Some(v) => v,
        None => {
            return None;
        },
    };
    Some(mix(v00, v01, v10, v11, c))
}

/// The error with which a plane or a target is refused, if it is.
pub open spec fn bilinear_error(
    a: ArrayView<F64>,
    source: AreaView,
    g: AreaGridView,
) -> Option<ErrorView> {
    if plane_size(a) != area_size(source) {
        Some(
            ErrorView::InvalidInput(
                shape_text(
                    "dataset grid shape "@,
                    plane_size(a),
                    " does not match source area shape "@,
                    area_size(source),
                ),
            ),
        )
    } else if source.projection != g.area.projection {
        Some(ErrorView::Unsupported("bilinear area resampling between different projections"@))
    } else {
        None
    }
}

fn validate(source_grid: &DataGrid, source: &AreaDefinition, destination: &AreaGrid) -> (r: Result<
    (),
>)
    requires
        is_plane(source_grid@),
    ensures
        match bilinear_error(source_grid@, source@, destination@) {
            Some(e) => fails_with(r, e),
            None => r is Ok,
        },
{
    let shape = grid_shape(source_grid);
    let expected = source.shape();
    if shape.0 != expected.0 || shape.1 != expected.1 {
        return Err(
            shape_error(
                "dataset grid shape ",
                shape,
                " does not match source area shape ",
                expected,
            ),
        );
    }
    if !source.projection().same_as(destination.area().projection()) {
        return Err(
            RustySatError::unsupported("bilinear area resampling between different projections"),
        );
    }
    Ok(())
}

/// Whether `r` is the plane of the weighted means, or the first obstacle.
pub open spec fn bilinear_outcome<
    L: Fn(F64, F64) -> (F64, F64),
    M: Fn(F64, F64, F64, F64, BilinearCell) -> F64,
>(
    r: Result<DataGrid>,
    a: ArrayView<F64>,
    source: AreaView,
    g: AreaGridView,
    fill: F64,
    policy: BilinearMissingPolicy,
    locate: L,
    mix: M,
) -> bool {
    match bilinear_error(a, source, g) {
        Some(e) => fails_with(r, e),
        None => exists|samples: Seq<Option<F64>>| #[trigger]
            are_bilinear_samples(a, source.height, source.width, g, locate, mix, samples)
                && r is Ok && r->Ok_0@ == resampled_plane(
                Some(a),
                g,
                sample_values(samples, fill),
                sample_flags(samples, policy),
            ),
    }
}

/// The plane of the weighted means of the source pixels around the target pixels.
/// `locate` gives the column and the row of a position among the source pixels, `mix` the
/// weighted mean of the four values of a cell.
pub fn resample_area_bilinear_with_policy<
    L: Fn(F64, F64) -> (F64, F64),
    M: Fn(F64, F64, F64, F64, BilinearCell) -> F64,
>(
    source_grid: &DataGrid,
    source: &AreaDefinition,
    destination: &AreaGrid,
    fill_value: F64,
    missing_policy: BilinearMissingPolicy,
    locate: &L,
    mix: &M,
) -> (r: Result<DataGrid>)
    requires
        is_plane(source_grid@),
        forall|x: F64, y: F64| #[trigger] locate.requires((x, y)),
        forall|a: F64, b: F64, d: F64, e: F64, c: BilinearCell| #[trigger]
            mix.requires((a, b, d, e, c)),
    ensures
        bilinear_outcome(
            r,
            source_grid@,
            source@,
            destination@,
            fill_value,
            missing_policy,
            *locate,
            *mix,
        ),
{
    proof {
        use_type_invariant(source_grid);
        use_type_invariant(destination);
    }
    match validate(source_grid, source, destination) {
        Ok(()) => {},
        Err(e) => {
            return Err(e);
        },
    }
    let (height, width) = grid_shape(source_grid);
    let (dst_height, dst_width) = destination.shape();
    let size: usize = dst_height * dst_width;
    let ghost g = destination@;
    let ghost a = source_grid@;
    let ghost mut samples: Seq<Option<F64>> = Seq::empty();
    let mut values: Vec<F64> = Vec::new();
    let mut flags: Vec<bool> = Vec::new();
    let mut t: usize = 0;
    while t < size
        invariant
            t <= size,
            size == g.area.height * g.area.width,
            g == destination@,
            a == source_grid@,
            crate::area::area_grid_ok(g),
            dst_width == g.area.width,
            height * width <= usize::MAX,
            forall|x: F64, y: F64| #[trigger] locate.requires((x, y)),
            forall|a: F64, b: F64, d: F64, e: F64, c: BilinearCell| #[trigger]
                mix.requires((a, b, d, e, c)),
            samples.len() == t,
            forall|u: int|
                0 <= u < t ==> is_bilinear_sample(
                    a,
                    height,
                    width,
                    g,
                    u,
                    *locate,
                    *mix,
                    #[trigger] samples[u],
                ),
            values@ == sample_values(samples, fill_value),
            flags@ == sample_flags(samples, missing_policy),
        decreases size - t,
    {
        proof {
            assert(t % dst_width < dst_width && t / dst_width < g.area.height)
                by (nonlinear_arith)
                requires
                    t < g.area.height * dst_width,
                    dst_width > 0,
            ;
        }
        let x = destination.x()[t % dst_width];
        let y = destination.y()[t / dst_width];
        let place = locate(x, y);
        assert(locate.ensures((pixel_lon(g, t as int), pixel_lat(g, t as int)), place));
        let sample: Option<F64> = match cell_around(place, height, width) {
            Some(c) => mix_cell(source_grid, height, width, c, mix),
            None => None,
        };
        let ghost before = samples;
        proof {
            samples = samples.push(sample);
            assert(is_bilinear_sample(a, height, width, g, t as int, *locate, *mix, sample));
        }
        match sample {
            Some(v) => {
                values.push(v);
                flags.push(false);
            },
            None => {
                values.push(fill_value);
                flags.push(missing_policy.masks_missing());
            },
        }
        proof {
            assert(values@ =~= sample_values(samples, fill_value));
            assert(flags@ =~= sample_flags(samples, missing_policy));
        }
        t = t + 1;
    }
    assert(are_bilinear_samples(a, source@.height, source@.width, g, *locate, *mix, samples));
    finish_plane(Some(source_grid), destination, values, flags)
}

/// The plane of the weighted means, with a value for the pixels without one.
pub fn resample_area_bilinear<
    L: Fn(F64, F64) -> (F64, F64),
    M: Fn(F64, F64, F64, F64, BilinearCell) -> F64,
>(
    source_grid: &DataGrid,
    source: &AreaDefinition,
    destination: &AreaGrid,
    fill_value: F64,
    locate: &L,
    mix: &M,
) -> (r: Result<DataGrid>)
    requires
        is_plane(source_grid@),
        forall|x: F64, y: F64| #[trigger] locate.requires((x, y)),
        forall|a: F64, b: F64, d: F64, e: F64, c: BilinearCell| #[trigger]
            mix.requires((a, b, d, e, c)),
    ensures
        bilinear_outcome(
            r,
            source_grid@,
            source@,
            destination@,
            fill_value,
            BilinearMissingPolicy::FillValue,
            *locate,
            *mix,
        ),
{
    resample_area_bilinear_with_policy(
        source_grid,
        source,
        destination,
        fill_value,
        BilinearMissingPolicy::FillValue,
        locate,
        mix,
    )
}

/// The plane of the weighted means, with a mask over the pixels without one.
pub fn resample_area_bilinear_masked_missing<
    L: Fn(F64, F64) -> (F64, F64),
    M: Fn(F64, F64, F64, F64, BilinearCell) -> F64,
>(
    source_grid: &DataGrid,
    source: &AreaDefinition,
    destination: &AreaGrid,
    locate: &L,
    mix: &M,
) -> (r: Result<DataGrid>)
    requires
        is_plane(source_grid@),
        forall|x: F64, y: F64| #[trigger] locate.requires((x, y)),
        forall|a: F64, b: F64, d: F64, e: F64, c: BilinearCell| #[trigger]
            mix.requires((a, b, d, e, c)),
    ensures
        bilinear_outcome(
            r,
            source_grid@,
            source@,
            destination@,
            F64 { bits: NAN_BITS_64 },
            BilinearMissingPolicy::Mask,
            *locate,
            *mix,
        ),
{
    resample_area_bilinear_with_policy(
        source_grid,
        source,
        destination,
        F64 { bits: NAN_BITS_64 },
        BilinearMissingPolicy::Mask,
        locate,
        mix,
    )
}

/// As `resample_area_bilinear`, for a plane that is given away.
pub fn resample_area_bilinear_owned<
    L: Fn(F64, F64) -> (F64, F64),
    M: Fn(F64, F64, F64, F64, BilinearCell) -> F64,
>(
    source_grid: DataGrid,
    source: &AreaDefinition,
    destination: &AreaGrid,
    fill_value: F64,
    locate: &L,
    mix: &M,
) -> (r: Result<DataGrid>)
    requires
        is_plane(source_grid@),
        forall|x: F64, y: F64| #[trigger] locate.requires((x, y)),
        forall|a: F64, b: F64, d: F64, e: F64, c: BilinearCell| #[trigger]
            mix.requires((a, b, d, e, c)),
    ensures
        bilinear_outcome(
            r,
            source_grid@,
            source@,
            destination@,
            fill_value,
            BilinearMissingPolicy::FillValue,
            *locate,
            *mix,
        ),
{
    resample_area_bilinear(&source_grid, source, destination, fill_value, locate, mix)
}

/// A resampler by weighted means, as a mathematical value.
#[verifier::ext_equal]
pub struct BilinearAreaResamplerView {
    pub source: AreaView,
    pub fill_value: F64,
    pub policy: BilinearMissingPolicy,
}

/// A resampler by weighted means.
#[derive(Debug)]
pub struct BilinearAreaResampler {
    source: AreaDefinition,
    fill_value: F64,
    missing_policy: BilinearMissingPolicy,
}

impl View for BilinearAreaResampler {
    type V = BilinearAreaResamplerView;

    closed spec fn view(&self) -> BilinearAreaResamplerView {
        BilinearAreaResamplerView {
            source: self.source@,
            fill_value: self.fill_value,
            policy: self.missing_policy,
        }
    }
}

impl Clone for BilinearAreaResampler {
    fn clone(&self) -> (r: Self)
        ensures
            r@ == self@,
    {
        BilinearAreaResampler {
            source: self.source.clone(),
            fill_value: self.fill_value,
            missing_policy: self.missing_policy,
        }
    }
}

/// Whether `r` is a data set on an area by bilinear means, or the first obstacle. `no_grid`
/// is the text of the error for one without numbers.
pub open spec fn bilinear_dataset_outcome<
    L: Fn(F64, F64) -> (F64, F64),
    M: Fn(F64, F64, F64, F64, BilinearCell) -> F64,
>(
    r: Result<Dataset>,
    d: DatasetView,
    p: BilinearAreaResamplerView,
    g: AreaGridView,
    no_grid: Seq<char>,
    locate: L,
    mix: M,
) -> bool {
    match bilinear_dataset_error(d, p.source, g, no_grid) {
        Some(e) => fails_with(r, e),
        None => is_bilinear_dataset(r, d, p, g, locate, mix),
    }
}

impl BilinearAreaResampler {
    pub fn new(source: AreaDefinition) -> (r: Self)
        ensures
            r@ == (BilinearAreaResamplerView {
                source: source@,
                fill_value: F64 { bits: NAN_BITS_64 },
                policy: BilinearMissingPolicy::FillValue,
            }),
    {
        BilinearAreaResampler {
            source,
            fill_value: F64 { bits: NAN_BITS_64 },
            missing_policy: BilinearMissingPolicy::FillValue,
        }
    }

    pub fn with_fill_value(self, fill_value: F64) -> (r: Self)
        ensures
            r@ == (BilinearAreaResamplerView {
                fill_value,
                policy: BilinearMissingPolicy::FillValue,
                ..self@
            }),
    {
        BilinearAreaResampler {
            source: self.source,
            fill_value,
            missing_policy: BilinearMissingPolicy::FillValue,
        }
    }

    pub fn with_masked_missing(self) -> (r: Self)
        ensures
            r@ == (BilinearAreaResamplerView { policy: BilinearMissingPolicy::Mask, ..self@ }),
    {
        BilinearAreaResampler {
            source: self.source,
            fill_value: self.fill_value,
            missing_policy: BilinearMissingPolicy::Mask,
        }
    }

    pub fn source(&self) -> (r: &AreaDefinition)
        ensures
            r@ == self@.source,
    {
        &self.source
    }

    pub fn name(&self) -> (r: &str)
        ensures
            r@ == "bilinear"@,
    {
        "bilinear"
    }

    /// A data set on another area of the same projection.
    pub fn resample<
        L: Fn(F64, F64) -> (F64, F64),
        M: Fn(F64, F64, F64, F64, BilinearCell) -> F64,
    >(&self, dataset: &Dataset, destination: &AreaGrid, locate: &L, mix: &M) -> (r: Result<Dataset>)
        requires
            grid_of(dataset@) is Some ==> is_plane(grid_of(dataset@)->Some_0),
            forall|x: F64, y: F64| #[trigger] locate.requires((x, y)),
            forall|a: F64, b: F64, d: F64, e: F64, c: BilinearCell| #[trigger]
                mix.requires((a, b, d, e, c)),
        ensures
            bilinear_dataset_outcome(
                r,
                dataset@,
                self@,
                destination@,
                "bilinear resampling requires f64 dataset grid values"@,
                *locate,
                *mix,
            ),
    {
        let source_grid = match dataset.data() {
            Some(g) => g,
            None => {
                return Err(
                    RustySatError::invalid_input(
                        "bilinear resampling requires f64 dataset grid values",
                    ),
                );
            },
        };
        self.resample_grid(source_grid, dataset, destination, locate, mix)
    }

    /// A data set that is given away on another area of the same projection.
    pub fn resample_owned<
        L: Fn(F64, F64) -> (F64, F64),
        M: Fn(F64, F64, F64, F64, BilinearCell) -> F64,
    >(&self, dataset: Dataset, destination: &AreaGrid, locate: &L, mix: &M) -> (r: Result<Dataset>)
        requires
            grid_of(dataset@) is Some ==> is_plane(grid_of(dataset@)->Some_0),
            forall|x: F64, y: F64| #[trigger] locate.requires((x, y)),
            forall|a: F64, b: F64, d: F64, e: F64, c: BilinearCell| #[trigger]
                mix.requires((a, b, d, e, c)),
        ensures
            bilinear_dataset_outcome(
                r,
                dataset@,
                self@,
                destination@,
                "bilinear resampling requires an f64 dataset grid"@,
                *locate,
                *mix,
            ),
    {
        let source_grid = match dataset.data() {
            Some(g) => g,
            None => {
                return Err(
                    RustySatError::invalid_input("bilinear resampling requires an f64 dataset grid"),
                );
            },
        };
        self.resample_grid(source_grid, &dataset, destination, locate, mix)
    }

    fn resample_grid<
        L: Fn(F64, F64) -> (F64, F64),
        M: Fn(F64, F64, F64, F64, BilinearCell) -> F64,
    >(
        &self,
        source_grid: &DataGrid,
        dataset: &Dataset,
        destination: &AreaGrid,
        locate: &L,
        mix: &M,
    ) -> (r: Result<Dataset>)
        requires
            grid_of(dataset@) == Some(source_grid@),
            is_plane(source_grid@),
            forall|x: F64, y: F64| #[trigger] locate.requires((x, y)),
            forall|a: F64, b: F64, d: F64, e: F64, c: BilinearCell| #[trigger]
                mix.requires((a, b, d, e, c)),
        ensures
            match bilinear_error(source_grid@, self@.source, destination@) {
                Some(e) => fails_with(r, e),
                None => is_bilinear_dataset(r, dataset@, self@, destination@, *locate, *mix),
            },
    {
        let resampled = match resample_area_bilinear_with_policy(
            source_grid,
            &self.source,
            destination,
            self.fill_value,
            self.missing_policy,
            locate,
            mix,
        ) {
            Ok(g) => g,
            Err(e) => {
                return Err(e);
            },
        };
        Ok(
            Dataset::resampled_from(
                dataset,
                AnyDataArray::F64(resampled),
                destination.area().id(),
                "bilinear",
            ),
        )
    }
}

/// The error with which a data set is refused, if it is.
pub open spec fn bilinear_dataset_error(
    d: DatasetView,
    source: AreaView,
    g: AreaGridView,
    absent: Seq<char>,
) -> Option<ErrorView> {
    match grid_of(d) {
        None => Some(ErrorView::InvalidInput(absent)),
        Some(a) => bilinear_error(a, source, g),
    }
}

/// Whether `r` is the data set of the weighted means.
pub open spec fn is_bilinear_dataset<
    L: Fn(F64, F64) -> (F64, F64),
    M: Fn(F64, F64, F64, F64, BilinearCell) -> F64,
>(
    r: Result<Dataset>,
    d: DatasetView,
    resampler: BilinearAreaResamplerView,
    g: AreaGridView,
    locate: L,
    mix: M,
) -> bool {
    let a = grid_of(d)->Some_0;
    exists|samples: Seq<Option<F64>>| #[trigger]
        are_bilinear_samples(
            a,
            resampler.source.height,
            resampler.source.width,
            g,
            locate,
            mix,
            samples,
        ) && r is Ok
            && r->Ok_0@ == resampled(
            d,
            AnyArrayView::F64(
                resampled_plane(
                    Some(a),
                    g,
                    sample_values(samples, resampler.fill_value),
                    sample_flags(samples, resampler.policy),
                ),
            ),
            g.area.id,
            "bilinear"@,
        )
}

/// Whether the pixel in row `y` and column `x` is mixed of the four source pixels `c` around
/// its place, which lie less than one row and one column from it. It has the fill value where
/// its place is outside the source, or where one of the four is masked or not finite, and is
/// then masked where missing values are masked.
pub open spec fn mixes_four<
    L: Fn(F64, F64) -> (F64, F64),
    M: Fn(F64, F64, F64, F64, BilinearCell) -> F64,
>(
    out: ArrayView<F64>,
    a: ArrayView<F64>,
    source: AreaView,
    g: AreaGridView,
    fill: F64,
    policy: BilinearMissingPolicy,
    locate: L,
    mix: M,
    y: int,
    x: int,
    place: (F64, F64),
    c: BilinearCell,
) -> bool {
    &&& a.values.len() == source.height * source.width
    &&& out.values.len() == g.area.height * g.area.width
    &&& {
        let t = y * g.area.width + x;
        let w = source.width as int;
        let v = out.values[t];
        let hidden = out.mask is Some && out.mask->Some_0[t];
        let inside = place.0.finite() && place.1.finite() && reaches(place.1, 0) && reaches(
            place.0,
            0,
        ) && is_reached(place.1, source.height - 1) && is_reached(place.0, source.width - 1);
        &&& locate.ensures((g.x[x], g.y[y]), place)
        &&& inside ==> {
            &&& c.x == place.0 && c.y == place.1
            &&& c.y0 <= c.y1 < source.height && c.x0 <= c.x1 < source.width
            &&& reaches(place.1, c.y0 as int) && !reaches(place.1, c.y0 + 1)
            &&& is_reached(place.1, c.y1 as int) && !is_reached(place.1, c.y1 - 1)
            &&& reaches(place.0, c.x0 as int) && !reaches(place.0, c.x0 + 1)
            &&& is_reached(place.0, c.x1 as int) && !is_reached(place.0, c.x1 - 1)
        }
        &&& if inside && has_value(a, c.y0 * w + c.x0) && has_value(a, c.y0 * w + c.x1)
            && has_value(a, c.y1 * w + c.x0) && has_value(a, c.y1 * w + c.x1) {
            !hidden && mix.ensures(
                (
                    a.values[c.y0 * w + c.x0],
                    a.values[c.y0 * w + c.x1],
                    a.values[c.y1 * w + c.x0],
                    a.values[c.y1 * w + c.x1],
                    c,
                ),
                v,
            )
        } else {
            v == fill && hidden == (policy is Mask)
        }
    }
}

proof fn lemma_samples_mix_four<
    L: Fn(F64, F64) -> (F64, F64),
    M: Fn(F64, F64, F64, F64, BilinearCell) -> F64,
>(
    out: ArrayView<F64>,
    a: ArrayView<F64>,
    source: AreaView,
    g: AreaGridView,
    fill: F64,
    policy: BilinearMissingPolicy,
    locate: L,
    mix: M,
    samples: Seq<Option<F64>>,
    y: int,
    x: int,
) -> (found: ((F64, F64), BilinearCell))
    requires
        are_bilinear_samples(a, source.height, source.width, g, locate, mix, samples),
        out == resampled_plane(
            Some(a),
            g,
            sample_values(samples, fill),
            sample_flags(samples, policy),
        ),
        bilinear_error(a, source, g) is None,
        array_ok(a),
        is_plane(a),
        0 <= y < g.area.height,
        0 <= x < g.area.width,
    ensures
        mixes_four(out, a, source, g, fill, policy, locate, mix, y, x, found.0, found.1),
{
    lemma_pixel_inside(y, x, g.area.height as int, g.area.width as int);
    lemma_plane_len(a);
    let t = y * g.area.width + x;
    assert(is_bilinear_sample(
        a,
        source.height,
        source.width,
        g,
        t,
        locate,
        mix,
        samples[t],
    ));
    let place = choose|place: (F64, F64)| #[trigger]
        locate.ensures((pixel_lon(g, t), pixel_lat(g, t)), place) && match cell_at(
            place,
            source.height,
            source.width,
        ) {
            Some(c) => if cell_counts(a.values, a.mask, source.width, c) {
                samples[t] is Some && is_mixed(a.values, source.width, c, mix, samples[t]->Some_0)
            } else {
                samples[t] is None
            },
            None => samples[t] is None,
        };
    lemma_places_enclose(place.1, source.height);
    lemma_places_enclose(place.0, source.width);
    lemma_floor_and_ceil(place.1);
    lemma_floor_and_ceil(place.0);
    let flags = sample_flags(samples, policy);
    assert(flags[t] == (samples[t] is None && policy is Mask));
    if flags[t] {
        assert(any_set(flags));
    }
    let c = match cell_at(place, source.height, source.width) {
        Some(c) => c,
        None => BilinearCell { y0: 0, x0: 0, y1: 0, x1: 0, x: place.0, y: place.1 },
    };
    if cell_at(place, source.height, source.width) is Some {
        let (h, w) = (source.height as int, source.width as int);
        lemma_pixel_inside(c.y0 as int, c.x0 as int, h, w);
        lemma_pixel_inside(c.y0 as int, c.x1 as int, h, w);
        lemma_pixel_inside(c.y1 as int, c.x0 as int, h, w);
        lemma_pixel_inside(c.y1 as int, c.x1 as int, h, w);
    }
    (place, c)
}

/// Bilinear resampling mixes each pixel of the four source pixels around its place. It is done
/// exactly where the plane has the shape of the source area and the target its projection.
pub proof fn lemma_bilinear_mixes_four<
    L: Fn(F64, F64) -> (F64, F64),
    M: Fn(F64, F64, F64, F64, BilinearCell) -> F64,
>(
    r: Result<DataGrid>,
    a: ArrayView<F64>,
    source: AreaView,
    g: AreaGridView,
    fill: F64,
    policy: BilinearMissingPolicy,
    locate: L,
    mix: M,
    y: int,
    x: int,
) -> (found: ((F64, F64), BilinearCell))
    requires
        bilinear_outcome(r, a, source, g, fill, policy, locate, mix),
        array_ok(a),
        is_plane(a),
        0 <= y < g.area.height,
        0 <= x < g.area.width,
    ensures
        r is Ok <==> a.shape == seq![source.height, source.width] && source.projection
            == g.area.projection,
        r is Ok ==> mixes_four(
            r->Ok_0@,
            a,
            source,
            g,
            fill,
            policy,
            locate,
            mix,
            y,
            x,
            found.0,
            found.1,
        ),
{
    lemma_plane_len(a);
    if plane_size(a) == area_size(source) {
        assert(a.shape =~= seq![source.height, source.width]);
    }
    if r is Ok {
        let samples = choose|samples: Seq<Option<F64>>| #[trigger]
            are_bilinear_samples(a, source.height, source.width, g, locate, mix, samples) && r is Ok
                && r->Ok_0@ == resampled_plane(
                Some(a),
                g,
                sample_values(samples, fill),
                sample_flags(samples, policy),
            );
        lemma_samples_mix_four(
            r->Ok_0@,
            a,
            source,
            g,
            fill,
            policy,
            locate,
            mix,
            samples,
            y,
            x,
        )
    } else {
        ((fill, fill), BilinearCell { y0: 0, x0: 0, y1: 0, x1: 0, x: fill, y: fill })
    }
}

/// Bilinear resampling of a data set: it is on the area of the target, and its plane is mixed
/// as that of its grid.
pub proof fn lemma_bilinear_dataset<
    L: Fn(F64, F64) -> (F64, F64),
    M: Fn(F64, F64, F64, F64, BilinearCell) -> F64,
>(
    r: Result<Dataset>,
    d: DatasetView,
    p: BilinearAreaResamplerView,
    g: AreaGridView,
    no_grid: Seq<char>,
    locate: L,
    mix: M,
    y: int,
    x: int,
) -> (found: ((F64, F64), BilinearCell))
    requires
        bilinear_dataset_outcome(r, d, p, g, no_grid, locate, mix),
        r is Ok,
        d.array matches Some(AnyArrayView::F64(a)) ==> array_ok(a) && is_plane(a),
        0 <= y < g.area.height,
        0 <= x < g.area.width,
    ensures
        is_on_area(r->Ok_0@, d, g, "bilinear"@),
        d.array is Some && d.array->Some_0 is F64,
        r->Ok_0@.array is Some && r->Ok_0@.array->Some_0 is F64,
        mixes_four(
            r->Ok_0@.array->Some_0->F64_0,
            d.array->Some_0->F64_0,
            p.source,
            g,
            p.fill_value,
            p.policy,
            locate,
            mix,
            y,
            x,
            found.0,
            found.1,
        ),
{
    let a = grid_of(d)->Some_0;
    let samples = choose|samples: Seq<Option<F64>>| #[trigger]
        are_bilinear_samples(a, p.source.height, p.source.width, g, locate, mix, samples) && r is Ok
            && r->Ok_0@ == resampled(
            d,
            AnyArrayView::F64(
                resampled_plane(
                    Some(a),
                    g,
                    sample_values(samples, p.fill_value),
                    sample_flags(samples, p.policy),
                ),
            ),
            g.area.id,
            "bilinear"@,
        );
    let plane = resampled_plane(
        Some(a),
        g,
        sample_values(samples, p.fill_value),
        sample_flags(samples, p.policy),
    );
    lemma_resampled(d, AnyArrayView::F64(plane), g, "bilinear"@);
    lemma_samples_mix_four(
        plane,
        a,
        p.source,
        g,
        p.fill_value,
        p.policy,
        locate,
        mix,
        samples,
        y,
        x,
    )
}

/// Bilinear resampling does not depend on what a masked pixel holds, nor on which number that
/// is not finite another one holds: planes that have values at the same pixels, and the same
/// ones, give the same plane.
pub proof fn lemma_bilinear_ignores_missing<
    L: Fn(F64, F64) -> (F64, F64),
    M: Fn(F64, F64, F64, F64, BilinearCell) -> F64,
>(
    p: Result<DataGrid>,
    q: Result<DataGrid>,
    a: ArrayView<F64>,
    b: ArrayView<F64>,
    source: AreaView,
    g: AreaGridView,
    fill: F64,
    policy: BilinearMissingPolicy,
    locate: L,
    mix: M,
    y: int,
    x: int,
)
    requires
        bilinear_outcome(p, a, source, g, fill, policy, locate, mix),
        bilinear_outcome(q, b, source, g, fill, policy, locate, mix),
        p is Ok,
        q is Ok,
        array_ok(a),
        array_ok(b),
        is_plane(a),
        is_plane(b),
        forall|i: int| 0 <= i < a.values.len() ==> #[trigger] has_value(a, i) == has_value(b, i),
        forall|i: int|
            0 <= i < a.values.len() && #[trigger] has_value(a, i) ==> a.values[i] == b.values[i],
        forall|u: F64, v: F64, m: (F64, F64), n: (F64, F64)|
            #![trigger locate.ensures((u, v), m), locate.ensures((u, v), n)]
            locate.ensures((u, v), m) && locate.ensures((u, v), n) ==> m == n,
        forall|s: F64, t: F64, u: F64, v: F64, c: BilinearCell, m: F64, n: F64|
            #![trigger mix.ensures((s, t, u, v, c), m), mix.ensures((s, t, u, v, c), n)]
            mix.ensures((s, t, u, v, c), m) && mix.ensures((s, t, u, v, c), n) ==> m == n,
        0 <= y < g.area.height,
        0 <= x < g.area.width,
    ensures
        p->Ok_0@.values[y * g.area.width + x] == q->Ok_0@.values[y * g.area.width + x],
{
    let (m, c) = lemma_bilinear_mixes_four(p, a, source, g, fill, policy, locate, mix, y, x);
    let (n, d) = lemma_bilinear_mixes_four(q, b, source, g, fill, policy, locate, mix, y, x);
    assert(m == n);
    let w = source.width as int;
    let inside = m.0.finite() && m.1.finite() && reaches(m.1, 0) && reaches(m.0, 0) && is_reached(
        m.1,
        source.height - 1,
    ) && is_reached(m.0, source.width - 1);
    if inside {
        lemma_floor_and_ceil(m.0);
        lemma_floor_and_ceil(m.1);
        assert(c == d);
        let (h, w) = (source.height as int, source.width as int);
        lemma_pixel_inside(c.y0 as int, c.x0 as int, h, w);
        lemma_pixel_inside(c.y0 as int, c.x1 as int, h, w);
        lemma_pixel_inside(c.y1 as int, c.x0 as int, h, w);
        lemma_pixel_inside(c.y1 as int, c.x1 as int, h, w);
    }
}

/// A plane by bilinear resampling has the axes of the target.
pub proof fn lemma_bilinear_axes<
    L: Fn(F64, F64) -> (F64, F64),
    M: Fn(F64, F64, F64, F64, BilinearCell) -> F64,
>(
    r: Result<DataGrid>,
    a: ArrayView<F64>,
    source: AreaView,
    g: AreaGridView,
    fill: F64,
    policy: BilinearMissingPolicy,
    locate: L,
    mix: M,
)
    requires
        bilinear_outcome(r, a, source, g, fill, policy, locate, mix),
        r is Ok,
    ensures
        keeps_axes(r->Ok_0@, g),
{
    lemma_axes_kept(crate::assemble::PlaneNames::Area, Some(a), g);
    let samples = choose|samples: Seq<Option<F64>>| #[trigger]
        are_bilinear_samples(a, source.height, source.width, g, locate, mix, samples) && r is Ok
            && r->Ok_0@ == resampled_plane(
            Some(a),
            g,
            sample_values(samples, fill),
            sample_flags(samples, policy),
        );
    assert(r->Ok_0@ == crate::assemble::plane_with(
        crate::assemble::PlaneNames::Area,
        Some(a),
        g,
        sample_values(samples, fill),
        crate::assemble::mask_of(sample_flags(samples, policy)),
    ));
}

} // verus!
