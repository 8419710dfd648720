//! Data sets on planes whose sizes are whole multiples of each other.

use crate::area::{AreaDefinition, AreaGrid, AreaGridView, AreaView};
use crate::array::{any_array_ok, are_numbers, size_along, AnyArrayView, ArrayView};
use crate::dataset::{is_on_area, lemma_resampled, resampled, Dataset, DatasetView};
use crate::error::{fails_with, ErrorView, Result, RustySatError};
use crate::native::{
    any_shows_source, averages, is_any_native, lemma_any_native_shows_source, native_error, native_resample_any_yx, outline, plane_error, plane_of,
};
use crate::nearest::{area_size, shape_error, shape_text};
use crate::number::F64;
use vstd::prelude::*;

verus! {

/// A resampler by repetition or by means of blocks.
#[derive(Debug)]
pub struct NativeResampler {
    source: AreaDefinition,
}

impl View for NativeResampler {
    type V = AreaView;

    closed spec fn view(&self) -> AreaView {
        self.source@
    }
}

/// The error with which a data set or a target is refused, if it is.
pub open spec fn native_dataset_error(
    d: DatasetView,
    source: AreaView,
    g: AreaGridView,
) -> Option<ErrorView> {
    match d.array {
        None => Some(
            ErrorView::InvalidInput("native resampling requires dataset array values"@),
        ),
        Some(v) => {
            let a = outline(v);
            if plane_error(a.dims) is Some {
                plane_error(a.dims)
            } else if plane_of(a) != area_size(source) {
                Some(
                    ErrorView::InvalidInput(
                        shape_text(
                            "dataset grid y/x shape "@,
                            plane_of(a),
                            " does not match source area shape "@,
                            area_size(source),
                        ),
                    ),
                )
            } else if source.projection != g.area.projection {
                Some(ErrorView::Unsupported("native resampling between different projections"@))
            } else {
                native_error(a, g)
            }
        },
    }
}

/// Whether `r` is the data set on the plane of the target, or the first obstacle.
pub open spec fn native_dataset_outcome<M: Fn(Vec<F64>) -> F64>(
    r: Result<Dataset>,
    d: DatasetView,
    source: AreaView,
    g: AreaGridView,
    mean: M,
) -> bool {
    match native_dataset_error(d, source, g) {
        Some(e) => fails_with(r, e),
        None => exists|out: AnyArrayView| #[trigger]
            is_any_native(out, d.array->Some_0, g, mean) && r is Ok && r->Ok_0@
                == resampled(d, out, g.area.id, "native"@),
    }
}

impl NativeResampler {
    pub fn new(source: AreaDefinition) -> (r: Self)
        ensures
            r@ == source@,
    {
        NativeResampler { source }
    }

    pub fn source(&self) -> (r: &AreaDefinition)
        ensures
            r@ == self@,
    {
        &self.source
    }

    pub fn name(&self) -> (r: &str)
        ensures
            r@ == "native"@,
    {
        "native"
    }

    pub fn copy(&self) -> (r: Self)
        ensures
            r@ == self@,
    {
        NativeResampler { source: self.source.copy() }
    }

    /// A data set on another plane.
    pub fn resample<M: Fn(Vec<F64>) -> F64>(
        &self,
        dataset: &Dataset,
        destination: &AreaGrid,
        mean: &M,
    ) -> (r: Result<Dataset>)
        requires
            forall|v: Vec<F64>| #[trigger] mean.requires((v,)),
        ensures
            native_dataset_outcome(r, dataset@, self@, destination@, *mean),
    {
        proof {
            use_type_invariant(&self.source);
        }
        let source_array = match dataset.array() {
            Some(array) => array,
            None => {
                return Err(
                    RustySatError::invalid_input("native resampling requires dataset array values"),
                );
            },
        };
        let shape = match source_array.shape_yx() {
            Ok(shape) => shape,
            Err(e) => {
                return Err(e);
            },
        };
        let expected = self.source.shape();
        if shape.0 != expected.0 || shape.1 != expected.1 {
            return Err(
                shape_error(
                    "dataset grid y/x shape ",
                    shape,
                    " does not match source area shape ",
                    expected,
                ),
            );
        }
        if !self.source.projection().same_as(destination.area().projection()) {
            return Err(
                RustySatError::unsupported("native resampling between different projections"),
            );
        }
        match native_resample_any_yx(source_array, destination, mean) {
            Ok(array) => {
                assert(is_any_native(array@, source_array@, destination@, *mean));
                Ok(Dataset::resampled_from(dataset, array, destination.area().id(), "native"))
            },
            Err(e) => Err(e),
        }
    }

    /// A data set that is given away on another plane.
    pub fn resample_owned<M: Fn(Vec<F64>) -> F64>(
        &self,
        dataset: Dataset,
        destination: &AreaGrid,
        mean: &M,
    ) -> (r: Result<Dataset>)
        requires
            forall|v: Vec<F64>| #[trigger] mean.requires((v,)),
        ensures
            native_dataset_outcome(r, dataset@, self@, destination@, *mean),
    {
        self.resample(&dataset, destination, mean)
    }
}

impl Clone for NativeResampler {
    fn clone(&self) -> (r: Self)
        ensures
            r@ == self@,
    {
        self.copy()
    }
}

/// A native resampling of a data set: it is on the area of the target, and its array shows the
/// source where the target is not smaller, and otherwise the means of what lies in each element.
pub proof fn lemma_native_dataset_shows_source<M: Fn(Vec<F64>) -> F64>(
    r: Result<Dataset>,
    d: DatasetView,
    source: AreaView,
    g: AreaGridView,
    mean: M,
)
    requires
        native_dataset_outcome(r, d, source, g, mean),
        r is Ok,
        crate::area::area_grid_ok(g),
        d.array is Some ==> any_array_ok(d.array->Some_0),
        source.height > 0,
        source.width > 0,
    ensures
        d.array is Some,
        source.projection == g.area.projection,
        is_on_area(r->Ok_0@, d, g, "native"@),
        r->Ok_0@.array is Some,
        ({
            let v = d.array->Some_0;
            let out = r->Ok_0@.array->Some_0;
            &&& size_along(outline(v), "y"@) == source.height
            &&& size_along(outline(v), "x"@) == source.width
            &&& out.dims() == v.dims()
            &&& size_along(outline(out), "y"@) == g.area.height
            &&& size_along(outline(out), "x"@) == g.area.width
            &&& if source.height <= g.area.height && source.width <= g.area.width {
                any_shows_source(out, v)
            } else {
                out is F64 && exists|numbers: Seq<F64>| #[trigger]
                    are_numbers(v, numbers) && averages(
                        out->F64_0,
                        (ArrayView {
                            shape: v.shape(),
                            dims: v.dims(),
                            values: numbers,
                            mask: v.mask(),
                            coords: v.coords(),
                        }),
                        mean,
                    )
            }
        }),
{
    let v = d.array->Some_0;
    let out = choose|out: AnyArrayView| #[trigger]
        is_any_native(out, v, g, mean) && r is Ok && r->Ok_0@ == resampled(
            d,
            out,
            g.area.id,
            "native"@,
        );
    lemma_resampled(d, out, g, "native"@);
    lemma_any_native_shows_source(out, v, g, mean);
}

} // verus!
