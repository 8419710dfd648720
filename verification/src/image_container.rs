//! An image: a data set with the place of its pixels.

use crate::area::AreaDefinition;
use crate::arithmetic::ResampleArithmetic;
use crate::array::{AnyDataArray, DataGrid};
use crate::dataset::{grid_of, Dataset, DatasetView};
use crate::error::{fails_with, is_unsupported, ErrorView, Result, RustySatError};
use crate::linesample::{
    any_sampling_outcome, sample_any_from_linesample, sample_grid_from_linesample,
    sampling_outcome, LineSampleFillValue, LineSampleGrid,
};
use crate::native::plane_error;
use crate::nearest::{shape_error, shape_text};
use crate::number::{F64, NAN_BITS_64};
use crate::pipeline::{
    fits, gives_functions, plain_options, prepared, resample_dataset_from_geometry,
    resample_dataset_owned_from_geometry, runs, GeometryView, OptionsView, PreparedResampler, ResampleOptions,
    ResamplerMethod, SourceGeometry,
};
use crate::source_geometry::{
    area_table_error, geometry_outcome, plane_in, source_geometry_from_dataset, with_area,
    with_area_attr,
};
use crate::swath::SwathDefinition;
use crate::text::{join3, position_in};
use vstd::prelude::*;

verus! {

/// An image as a mathematical value.
#[verifier::ext_equal]
pub struct ImageView {
    pub dataset: DatasetView,
    pub source: GeometryView,
}

/// A data set with the place of its pixels.
#[derive(Debug, PartialEq)]
pub struct ImageContainer {
    dataset: Dataset,
    source: SourceGeometry,
}

impl View for ImageContainer {
    type V = ImageView;

    closed spec fn view(&self) -> ImageView {
        ImageView { dataset: self.dataset@, source: self.source@ }
    }
}

impl Clone for ImageContainer {
    fn clone(&self) -> (r: Self)
        ensures
            r@ == self@,
    {
        proof {
            use_type_invariant(self);
        }
        ImageContainer {
            dataset: self.dataset.clone(),
            source: self.source.clone(),
        }
    }
}

/// The height and the width of a geometry.
pub open spec fn geometry_size(source: GeometryView) -> (usize, usize) {
    match source {
        GeometryView::Area(a) => (a.height, a.width),
        GeometryView::Swath(s) => (s.height, s.width),
    }
}

/// The error for a data set without an array.
pub open spec fn no_array(d: DatasetView) -> ErrorView {
    ErrorView::InvalidInput("image container dataset '"@ + d.name + "' has no array data"@)
}

/// The error for a data set without a grid of 64-bit numbers.
pub open spec fn no_grid(d: DatasetView) -> ErrorView {
    ErrorView::InvalidInput("image container dataset '"@ + d.name + "' does not have a f64 grid"@)
}

/// The error for a data set that does not have the pixels of a geometry, if it does not.
pub open spec fn image_error(d: DatasetView, source: GeometryView) -> Option<ErrorView> {
    match d.array {
        None => Some(no_array(d)),
        Some(v) => if plane_error(v.dims()) is Some {
            plane_error(v.dims())
        } else if plane_in(v) != geometry_size(source) {
            Some(
                ErrorView::InvalidInput(
                    shape_text(
                        "image container data y/x shape "@,
                        plane_in(v),
                        " does not match geometry shape "@,
                        geometry_size(source),
                    ),
                ),
            )
        } else {
            None
        },
    }
}

fn refuse(before: &str, name: &str, after: &str) -> (r: RustySatError)
    ensures
        r@ == ErrorView::InvalidInput(before@ + name@ + after@),
{
    let text = join3(before, name, after);
    RustySatError::invalid_input(text.as_str())
}

fn validate_dataset_geometry(dataset: &Dataset, source: &SourceGeometry) -> (r: Result<()>)
    ensures
        match image_error(dataset@, source@) {
            Some(e) => fails_with(r, e),
            None => r is Ok,
        },
{
    let array = match dataset.array() {
        Some(a) => a,
        None => {
            return Err(
                refuse("image container dataset '", dataset.id().name(), "' has no array data"),
            );
        },
    };
    let shape = match array.shape_yx() {
        Ok(p) => p,
        Err(e) => {
            return Err(e);
        },
    };
    let expected = match source {
        SourceGeometry::Area(area) => area.shape(),
        SourceGeometry::Swath(swath) => swath.shape(),
    };
    if shape.0 != expected.0 || shape.1 != expected.1 {
        return Err(
            shape_error(
                "image container data y/x shape ",
                shape,
                " does not match geometry shape ",
                expected,
            ),
        );
    }
    Ok(())
}

/// Whether `r` is the image of a data set with a geometry, or the obstacle.
pub open spec fn image_outcome(
    r: Result<ImageContainer>,
    d: DatasetView,
    source: GeometryView,
) -> bool {
    match image_error(d, source) {
        Some(e) => fails_with(r, e),
        None => r is Ok && r->Ok_0@ == (ImageView { dataset: d, source }),
    }
}

/// Whether `r` is the image of a resampled data set on the destination, or the first
/// obstacle.
pub open spec fn resampled_image(
    r: Result<ImageContainer>,
    d: Result<Dataset>,
    destination: &AreaDefinition,
) -> bool {
    match d {
        Err(e) => fails_with(r, e@),
        Ok(dataset) => match area_table_error(destination@) {
            Some(e) => fails_with(r, e),
            None => image_outcome(
                r,
                with_area(dataset@, destination@),
                GeometryView::Area(destination@),
            ),
        },
    }
}

/// Whether `r` is an image on the destination, or the first obstacle. `given` tells that the
/// image was given away.
pub open spec fn image_resampling<
    K: ResampleArithmetic,
    F: Fn(&PreparedResampler, &AreaDefinition) -> K,
>(
    r: Result<ImageContainer>,
    image: ImageView,
    destination: &AreaDefinition,
    o: OptionsView,
    given: bool,
    arithmetic: F,
) -> bool {
    exists|d: Result<Dataset>| #[trigger]
        runs(d, prepared(image.source, o), image.dataset, destination, given, arithmetic)
            && resampled_image(r, d, destination)
}

/// The options for the nearest pixel with a radius and a fill value.
pub open spec fn nearest_options(radius: Option<F64>, fill_value: F64) -> OptionsView {
    OptionsView { radius, fill_value, ..plain_options(ResamplerMethod::NearestArea) }
}

/// Whether a radius is negative.
pub open spec fn negative_radius(radius: Option<F64>) -> bool {
    radius is Some && radius->Some_0.less(F64 { bits: 0 })
}

/// The options for the nearest pixel with a radius and a fill value.
fn options_for_nearest(radius_of_influence: Option<F64>, fill_value: F64) -> (r: Result<
    ResampleOptions,
>)
    ensures
        if negative_radius(radius_of_influence) {
            fails_with(
                r,
                ErrorView::InvalidInput("radius_of_influence must be non-negative"@),
            )
        } else {
            r is Ok && r->Ok_0@ == nearest_options(radius_of_influence, fill_value)
        },
{
    let options = ResampleOptions::nearest_area().with_fill_value(fill_value);
    match radius_of_influence {
        Some(radius) => options.with_radius_of_influence(radius),
        None => Ok(options),
    }
}

/// The text of the error for an image that is not on an area.
pub open spec fn not_an_area() -> Seq<char> {
    "line/sample indexing from non-area image container geometry"@
}

impl ImageContainer {
    /// The data set has the pixels of the geometry.
    #[verifier::type_invariant]
    pub open spec fn inv(&self) -> bool {
        image_error(self@.dataset, self@.source) is None
    }

    pub fn new(dataset: Dataset, source: SourceGeometry) -> (r: Result<Self>)
        ensures
            image_outcome(r, dataset@, source@),
    {
        match validate_dataset_geometry(&dataset, &source) {
            Ok(()) => Ok(ImageContainer { dataset, source }),
            Err(e) => Err(e),
        }
    }

    pub fn from_area(dataset: Dataset, area: AreaDefinition) -> (r: Result<Self>)
        ensures
            image_outcome(r, dataset@, GeometryView::Area(area@)),
    {
        Self::new(dataset, SourceGeometry::Area(area))
    }

    pub fn from_swath(dataset: Dataset, swath: SwathDefinition) -> (r: Result<Self>)
        ensures
            image_outcome(r, dataset@, GeometryView::Swath(swath@)),
    {
        Self::new(dataset, SourceGeometry::Swath(swath))
    }

    /// The image of a data set with the geometry that describes it.
    pub fn from_dataset_attrs(dataset: Dataset) -> (r: Result<Self>)
        ensures
            exists|g: Result<SourceGeometry>| #[trigger]
                geometry_outcome(g, dataset@) && match g {
                    Ok(source) => image_outcome(r, dataset@, source@),
                    Err(e) => fails_with(r, e@),
                },
    {
        let g = source_geometry_from_dataset(&dataset);
        assert(geometry_outcome(g, dataset@));
        match g {
            Ok(source) => Self::new(dataset, source),
            Err(e) => Err(e),
        }
    }

    pub fn dataset(&self) -> (r: &Dataset)
        ensures
            r@ == self@.dataset,
    {
        &self.dataset
    }

    pub fn source_geometry(&self) -> (r: &SourceGeometry)
        ensures
            r@ == self@.source,
    {
        &self.source
    }

    pub fn into_dataset(self) -> (r: Dataset)
        ensures
            r@ == self@.dataset,
    {
        self.dataset
    }

    pub fn into_parts(self) -> (r: (Dataset, SourceGeometry))
        ensures
            r.0@ == self@.dataset,
            r.1@ == self@.source,
    {
        (self.dataset, self.source)
    }

    fn is_on_area(&self) -> (r: bool)
        ensures
            r == self@.source is Area,
    {
        match &self.source {
            SourceGeometry::Area(_) => true,
            SourceGeometry::Swath(_) => false,
        }
    }

    fn sampled_grid(
        &self,
        linesample: &LineSampleGrid,
        fill_value: F64,
        mask_missing: bool,
    ) -> (r: Result<DataGrid>)
        ensures
            if self@.source !is Area {
                is_unsupported(r, not_an_area())
            } else {
                match grid_of(self@.dataset) {
                    None => fails_with(r, no_grid(self@.dataset)),
                    Some(a) => sampling_outcome(r, a, linesample@, fill_value, mask_missing),
                }
            },
    {
        if !self.is_on_area() {
            return Err(
                RustySatError::unsupported(
                    "line/sample indexing from non-area image container geometry",
                ),
            );
        }
        match self.dataset.data() {
            Some(source) => sample_grid_from_linesample(
                source,
                linesample,
                fill_value,
                mask_missing,
            ),
            None => Err(
                refuse(
                    "image container dataset '",
                    self.dataset.id().name(),
                    "' does not have a f64 grid",
                ),
            ),
        }
    }

    /// The pixels that lines and samples name, with a value for those that are missing.
    pub fn get_array_from_linesample(&self, linesample: &LineSampleGrid, fill_value: F64) -> (r:
        Result<DataGrid>)
        ensures
            if self@.source !is Area {
                is_unsupported(r, not_an_area())
            } else {
                match grid_of(self@.dataset) {
                    None => fails_with(r, no_grid(self@.dataset)),
                    Some(a) => sampling_outcome(r, a, linesample@, fill_value, false),
                }
            },
    {
        self.sampled_grid(linesample, fill_value, false)
    }

    /// The pixels that lines and samples name, with a mask over those that are missing.
    pub fn get_array_from_linesample_masked_missing(&self, linesample: &LineSampleGrid) -> (r: Result<
        DataGrid,
    >)
        ensures
            if self@.source !is Area {
                is_unsupported(r, not_an_area())
            } else {
                match grid_of(self@.dataset) {
                    None => fails_with(r, no_grid(self@.dataset)),
                    Some(a) => sampling_outcome(
                        r,
                        a,
                        linesample@,
                        F64 { bits: NAN_BITS_64 },
                        true,
                    ),
                }
            },
    {
        self.sampled_grid(linesample, F64 { bits: NAN_BITS_64 }, true)
    }

    fn sampled_any(
        &self,
        linesample: &LineSampleGrid,
        fill_value: LineSampleFillValue,
        mask_missing: bool,
    ) -> (r: Result<AnyDataArray>)
        ensures
            if self@.source !is Area {
                is_unsupported(r, not_an_area())
            } else {
                any_sampling_outcome(
                    r,
                    self@.dataset.array->Some_0,
                    linesample@,
                    fill_value,
                    mask_missing,
                )
            },
    {
        proof {
            use_type_invariant(self);
        }
        if !self.is_on_area() {
            return Err(
                RustySatError::unsupported(
                    "line/sample indexing from non-area image container geometry",
                ),
            );
        }
        match self.dataset.array() {
            Some(source) => sample_any_from_linesample(
                source,
                linesample,
                fill_value,
                mask_missing,
            ),
            None => Err(
                refuse(
                    "image container dataset '",
                    self.dataset.id().name(),
                    "' has no array data",
                ),
            ),
        }
    }

    /// As `get_array_from_linesample`, for an array of any element type.
    pub fn get_any_array_from_linesample(
        &self,
        linesample: &LineSampleGrid,
        fill_value: LineSampleFillValue,
    ) -> (r: Result<AnyDataArray>)
        ensures
            if self@.source !is Area {
                is_unsupported(r, not_an_area())
            } else {
                any_sampling_outcome(
                    r,
                    self@.dataset.array->Some_0,
                    linesample@,
                    fill_value,
                    false,
                )
            },
    {
        self.sampled_any(linesample, fill_value, false)
    }

    /// As `get_array_from_linesample_masked_missing`, for an array of any element type.
    pub fn get_any_array_from_linesample_masked_missing(
        &self,
        linesample: &LineSampleGrid,
        fill_value: LineSampleFillValue,
    ) -> (r: Result<AnyDataArray>)
        ensures
            if self@.source !is Area {
                is_unsupported(r, not_an_area())
            } else {
                any_sampling_outcome(
                    r,
                    self@.dataset.array->Some_0,
                    linesample@,
                    fill_value,
                    true,
                )
            },
    {
        self.sampled_any(linesample, fill_value, true)
    }

    fn finish(dataset: Result<Dataset>, destination: &AreaDefinition) -> (r: Result<Self>)
        ensures
            resampled_image(r, dataset, destination),
    {
        let dataset = match dataset {
            Ok(d) => d,
            Err(e) => {
                return Err(e);
            },
        };
        match with_area_attr(dataset, destination) {
            Ok(d) => Self::from_area(d, destination.copy()),
            Err(e) => Err(e),
        }
    }

    /// The image on the destination. `arithmetic` gives the functions of numbers for a
    /// resampler and a destination.
    pub fn resample<K: ResampleArithmetic, F: Fn(&PreparedResampler, &AreaDefinition) -> K>(
        &self,
        destination: &AreaDefinition,
        options: ResampleOptions,
        arithmetic: &F,
    ) -> (r: Result<Self>)
        requires
            fits(prepared(self@.source, options@), self@.dataset),
            gives_functions(*arithmetic),
        ensures
            image_resampling(r, self@, destination, options@, false, *arithmetic),
    {
        let ghost image = self@;
        let d = resample_dataset_from_geometry(
            &self.dataset,
            self.source.copy(),
            destination,
            options,
            arithmetic,
        );
        assert(runs(
            d,
            prepared(image.source, options@),
            image.dataset,
            destination,
            false,
            *arithmetic,
        ));
        Self::finish(d, destination)
    }

    /// An image that is given away on the destination.
    pub fn resample_owned<K: ResampleArithmetic, F: Fn(&PreparedResampler, &AreaDefinition) -> K>(
        self,
        destination: &AreaDefinition,
        options: ResampleOptions,
        arithmetic: &F,
    ) -> (r: Result<Self>)
        requires
            fits(prepared(self@.source, options@), self@.dataset),
            gives_functions(*arithmetic),
        ensures
            image_resampling(r, self@, destination, options@, true, *arithmetic),
    {
        let ghost image = self@;
        let d = resample_dataset_owned_from_geometry(
            self.dataset,
            self.source,
            destination,
            options,
            arithmetic,
        );
        assert(runs(
            d,
            prepared(image.source, options@),
            image.dataset,
            destination,
            true,
            *arithmetic,
        ));
        Self::finish(d, destination)
    }

    /// The image on the destination by the nearest pixels.
    pub fn resample_nearest<K: ResampleArithmetic, F: Fn(&PreparedResampler, &AreaDefinition) -> K>(
        &self,
        destination: &AreaDefinition,
        radius_of_influence: Option<F64>,
        fill_value: F64,
        arithmetic: &F,
    ) -> (r: Result<Self>)
        requires
            fits(
                prepared(self@.source, nearest_options(radius_of_influence, fill_value)),
                self@.dataset,
            ),
            gives_functions(*arithmetic),
        ensures
            if negative_radius(radius_of_influence) {
                fails_with(
                    r,
                    ErrorView::InvalidInput("radius_of_influence must be non-negative"@),
                )
            } else {
                image_resampling(
                    r,
                    self@,
                    destination,
                    nearest_options(radius_of_influence, fill_value),
                    false,
                    *arithmetic,
                )
            },
    {
        match options_for_nearest(radius_of_influence, fill_value) {
            Ok(options) => self.resample(destination, options, arithmetic),
            Err(e) => Err(e),
        }
    }

    /// An image that is given away on the destination by the nearest pixels.
    pub fn resample_nearest_owned<K: ResampleArithmetic, F: Fn(&PreparedResampler, &AreaDefinition) -> K>(
        self,
        destination: &AreaDefinition,
        radius_of_influence: Option<F64>,
        fill_value: F64,
        arithmetic: &F,
    ) -> (r: Result<Self>)
        requires
            fits(
                prepared(self@.source, nearest_options(radius_of_influence, fill_value)),
                self@.dataset,
            ),
            gives_functions(*arithmetic),
        ensures
            if negative_radius(radius_of_influence) {
                fails_with(
                    r,
                    ErrorView::InvalidInput("radius_of_influence must be non-negative"@),
                )
            } else {
                image_resampling(
                    r,
                    self@,
                    destination,
                    nearest_options(radius_of_influence, fill_value),
                    true,
                    *arithmetic,
                )
            },
    {
        match options_for_nearest(radius_of_influence, fill_value) {
            Ok(options) => self.resample_owned(destination, options, arithmetic),
            Err(e) => Err(e),
        }
    }
}

/// An image is made exactly of a data set with an array that has the dimensions `y` and `x`, as
/// long as the height and the width of the geometry, and shows both.
pub proof fn lemma_image_accepts(r: Result<ImageContainer>, d: DatasetView, source: GeometryView)
    requires
        image_outcome(r, d, source),
    ensures
        r is Ok <==> {
            &&& d.array is Some
            &&& d.array->Some_0.dims().contains("y"@)
            &&& d.array->Some_0.dims().contains("x"@)
            &&& d.array->Some_0.shape()[position_in(d.array->Some_0.dims(), "y"@) as int]
                == match source {
                GeometryView::Area(a) => a.height,
                GeometryView::Swath(s) => s.height,
            }
            &&& d.array->Some_0.shape()[position_in(d.array->Some_0.dims(), "x"@) as int]
                == match source {
                GeometryView::Area(a) => a.width,
                GeometryView::Swath(s) => s.width,
            }
        },
        r is Ok ==> r->Ok_0@.dataset == d && r->Ok_0@.source == source,
{
}

} // verus!
