//! The choice of a resampler, and the resampling of a data set with it.

use crate::area::{has_centres, AreaDefinition, AreaGrid, AreaGridView, AreaView};
use crate::arithmetic::{resamples_all, slices_all, ResampleArithmetic, SliceArithmetic};
use crate::array::copy_values;
use crate::assemble::is_plane;
use crate::bilinear::{
    bilinear_dataset_outcome, BilinearAreaResampler, BilinearAreaResamplerView,
    BilinearMissingPolicy,
};
use crate::bucket::{
    bucket_dataset_outcome, bucket_name, lemma_bucket_dataset, new_bucket, BucketResampler, BucketResamplerView, BucketStatistic,
};
use crate::bucket_fraction::{
    categories_error, fraction_dataset_outcome, BucketFractionResampler, BucketFractionView,
};
use crate::dataset::{grid_of, Dataset, DatasetView};
use crate::error::{fails_with, is_invalid, is_missing, ErrorView, Result, RustySatError};
use crate::ewa::{
    default_options, ewa_dataset_outcome, lemma_ewa_dataset, positive, EwaOptions, EwaResampler, EwaResamplerView,
    EwaView,
};
use crate::metadata::MetadataTree;
use crate::native_resampler::{native_dataset_outcome, NativeResampler};
use crate::nearest::{
    nearest_area_outcome, nearest_swath_outcome, MissingValuePolicy,
    NearestAreaResampler, NearestAreaResamplerView, NearestSwathResampler,
    NearestSwathResamplerView,
};
use crate::number::{F64, NAN_BITS_64};
use crate::reduction::{
    holds_plane, reduce_area_dataset_with_divisibility, reduction_outcome,
};
use crate::swath::{SwathDefinition, SwathView};
use crate::text::{join3, lower_text, lowered, same_text, trim_text, trimmed};
use vstd::prelude::*;

verus! {

/// The methods of resampling.
#[derive(Clone, Copy, Debug, PartialEq, Eq, Structural)]
pub enum ResamplerMethod {
    NearestArea,
    Bilinear,
    Native,
    BucketAverage,
    BucketSum,
    BucketCount,
    BucketFraction,
    Ewa,
}

/// The method with a name in lower case, where there is one.
pub open spec fn method_named(name: Seq<char>) -> Option<ResamplerMethod> {
    if name == "nearest"@ || name == "nearest_area"@ || name == "kd_tree"@ {
        Some(ResamplerMethod::NearestArea)
    } else if name == "bilinear"@ {
        Some(ResamplerMethod::Bilinear)
    } else if name == "native"@ {
        Some(ResamplerMethod::Native)
    } else if name == "bucket"@ || name == "bucket_avg"@ || name == "bucket_average"@ {
        Some(ResamplerMethod::BucketAverage)
    } else if name == "bucket_sum"@ {
        Some(ResamplerMethod::BucketSum)
    } else if name == "bucket_count"@ {
        Some(ResamplerMethod::BucketCount)
    } else if name == "bucket_fraction"@ || name == "bucket_frac"@ {
        Some(ResamplerMethod::BucketFraction)
    } else if name == "ewa"@ || name == "ewa_legacy"@ {
        Some(ResamplerMethod::Ewa)
    } else {
        None
    }
}

impl ResamplerMethod {
    pub open spec fn label(self) -> Seq<char> {
        match self {
            ResamplerMethod::NearestArea => "nearest_area"@,
            ResamplerMethod::Bilinear => "bilinear"@,
            ResamplerMethod::Native => "native"@,
            ResamplerMethod::BucketAverage => "bucket_avg"@,
            ResamplerMethod::BucketSum => "bucket_sum"@,
            ResamplerMethod::BucketCount => "bucket_count"@,
            ResamplerMethod::BucketFraction => "bucket_fraction"@,
            ResamplerMethod::Ewa => "ewa"@,
        }
    }

    /// The method with a name, whatever its case and the space around it.
    pub fn from_name(name: &str) -> (r: Result<Self>)
        ensures
            match method_named(lowered(trimmed(name@))) {
                Some(m) => r is Ok && r->Ok_0 == m,
                None => is_missing(
                    r,
                    "resampler method '"@ + lowered(trimmed(name@)) + "'"@,
                ),
            },
    {
        let trimmed_name = trim_text(name);
        let lower = lower_text(trimmed_name.as_str());
        let n = lower.as_str();
        if same_text(n, "nearest") || same_text(n, "nearest_area") || same_text(n, "kd_tree") {
            Ok(ResamplerMethod::NearestArea)
        } else if same_text(n, "bilinear") {
            Ok(ResamplerMethod::Bilinear)
        } else if same_text(n, "native") {
            Ok(ResamplerMethod::Native)
        } else if same_text(n, "bucket") || same_text(n, "bucket_avg") || same_text(
            n,
            "bucket_average",
        ) {
            Ok(ResamplerMethod::BucketAverage)
        } else if same_text(n, "bucket_sum") {
            Ok(ResamplerMethod::BucketSum)
        } else if same_text(n, "bucket_count") {
            Ok(ResamplerMethod::BucketCount)
        } else if same_text(n, "bucket_fraction") || same_text(n, "bucket_frac") {
            Ok(ResamplerMethod::BucketFraction)
        } else if same_text(n, "ewa") || same_text(n, "ewa_legacy") {
            Ok(ResamplerMethod::Ewa)
        } else {
            let text = join3("resampler method '", n, "'");
            Err(RustySatError::not_found(text.as_str()))
        }
    }

    pub fn name(self) -> (r: &'static str)
        ensures
            r@ == self.label(),
    {
        match self {
            ResamplerMethod::NearestArea => "nearest_area",
            ResamplerMethod::Bilinear => "bilinear",
            ResamplerMethod::Native => "native",
            ResamplerMethod::BucketAverage => "bucket_avg",
            ResamplerMethod::BucketSum => "bucket_sum",
            ResamplerMethod::BucketCount => "bucket_count",
            ResamplerMethod::BucketFraction => "bucket_fraction",
            ResamplerMethod::Ewa => "ewa",
        }
    }
}

impl core::str::FromStr for ResamplerMethod {
    type Err = RustySatError;

    fn from_str(value: &str) -> core::result::Result<Self, RustySatError> {
        Self::from_name(value)
    }
}

/// The name of a method stands for the method.
pub proof fn lemma_label_names_method(m: ResamplerMethod)
    ensures
        method_named(m.label()) == Some(m),
{
    reveal_strlit("nearest");
    reveal_strlit("nearest_area");
    reveal_strlit("kd_tree");
    reveal_strlit("bilinear");
    reveal_strlit("native");
    reveal_strlit("bucket");
    reveal_strlit("bucket_avg");
    reveal_strlit("bucket_average");
    reveal_strlit("bucket_sum");
    reveal_strlit("bucket_count");
    reveal_strlit("bucket_fraction");
    reveal_strlit("bucket_frac");
    reveal_strlit("ewa");
    reveal_strlit("ewa_legacy");
    assert("nearest"@.len() == 7 && "kd_tree"@.len() == 7 && "nearest_area"@.len() == 12);
    assert("native"@.len() == 6 && "bucket"@.len() == 6 && "bilinear"@.len() == 8);
    assert("bucket_avg"@.len() == 10 && "bucket_sum"@.len() == 10);
    assert("bucket_average"@.len() == 14 && "bucket_count"@.len() == 12);
    assert("bucket_fraction"@.len() == 15 && "bucket_frac"@.len() == 11);
    assert("ewa"@.len() == 3 && "ewa_legacy"@.len() == 10);
    assert("nearest_area"@[0] == 'n' && "bucket_count"@[0] == 'b');
    assert("native"@[0] == 'n' && "bucket"@[0] == 'b');
    assert("bucket_avg"@[7] == 'a' && "bucket_sum"@[7] == 's' && "ewa_legacy"@[7] == 'a');
    assert("bucket_avg"@[0] == 'b' && "ewa_legacy"@[0] == 'e' && "bucket_sum"@[0] == 'b');
}

/// Options as a mathematical value.
#[verifier::ext_equal]
pub struct OptionsView {
    pub method: ResamplerMethod,
    pub radius: Option<F64>,
    pub fill_value: F64,
    pub mask_missing: bool,
    pub skipna: bool,
    pub reduce_data: bool,
    pub shape_divisible_by: Option<usize>,
    pub categories: Seq<F64>,
    pub categories_auto: bool,
}

/// The options with a method and nothing else chosen.
pub open spec fn plain_options(method: ResamplerMethod) -> OptionsView {
    OptionsView {
        method,
        radius: None,
        fill_value: F64 { bits: NAN_BITS_64 },
        mask_missing: false,
        skipna: true,
        reduce_data: false,
        shape_divisible_by: None,
        categories: Seq::empty(),
        categories_auto: false,
    }
}

/// How a data set is resampled.
#[derive(Debug, PartialEq)]
pub struct ResampleOptions {
    method: ResamplerMethod,
    radius_of_influence: Option<F64>,
    fill_value: F64,
    mask_missing: bool,
    skipna: bool,
    reduce_data: bool,
    shape_divisible_by: Option<usize>,
    bucket_categories: Vec<F64>,
    bucket_categories_auto: bool,
}

impl View for ResampleOptions {
    type V = OptionsView;

    closed spec fn view(&self) -> OptionsView {
        OptionsView {
            method: self.method,
            radius: self.radius_of_influence,
            fill_value: self.fill_value,
            mask_missing: self.mask_missing,
            skipna: self.skipna,
            reduce_data: self.reduce_data,
            shape_divisible_by: self.shape_divisible_by,
            categories: self.bucket_categories@,
            categories_auto: self.bucket_categories_auto,
        }
    }
}

impl Default for ResampleOptions {
    fn default() -> (r: Self)
        ensures
            r@ == plain_options(ResamplerMethod::NearestArea),
    {
        Self::new(ResamplerMethod::NearestArea)
    }
}

/// What holds of all options: the radius is not negative, the sides are to be divisible
/// by a positive factor and then the data are reduced, and categories that are found are
/// not given.
pub open spec fn options_ok(o: OptionsView) -> bool {
    &&& o.radius is Some ==> !o.radius->Some_0.less(F64 { bits: 0 })
    &&& o.shape_divisible_by is Some ==> o.shape_divisible_by->Some_0 > 0 && o.reduce_data
    &&& o.categories_auto ==> o.categories.len() == 0
}

impl ResampleOptions {
    #[verifier::type_invariant]
    pub open spec fn inv(&self) -> bool {
        options_ok(self@)
    }

    pub fn new(method: ResamplerMethod) -> (r: Self)
        ensures
            r@ == plain_options(method),
    {
        let r = ResampleOptions {
            method,
            radius_of_influence: None,
            fill_value: F64 { bits: NAN_BITS_64 },
            mask_missing: false,
            skipna: true,
            reduce_data: false,
            shape_divisible_by: None,
            bucket_categories: Vec::new(),
            bucket_categories_auto: false,
        };
        assert(r@ =~= plain_options(method));
        r
    }

    pub fn nearest_area() -> (r: Self)
        ensures
            r@ == plain_options(ResamplerMethod::NearestArea),
    {
        Self::new(ResamplerMethod::NearestArea)
    }

    pub fn native() -> (r: Self)
        ensures
            r@ == plain_options(ResamplerMethod::Native),
    {
        Self::new(ResamplerMethod::Native)
    }

    pub fn bilinear() -> (r: Self)
        ensures
            r@ == plain_options(ResamplerMethod::Bilinear),
    {
        Self::new(ResamplerMethod::Bilinear)
    }

    pub fn bucket_average() -> (r: Self)
        ensures
            r@ == plain_options(ResamplerMethod::BucketAverage),
    {
        Self::new(ResamplerMethod::BucketAverage)
    }

    pub fn bucket_sum() -> (r: Self)
        ensures
            r@ == plain_options(ResamplerMethod::BucketSum),
    {
        Self::new(ResamplerMethod::BucketSum)
    }

    pub fn bucket_count() -> (r: Self)
        ensures
            r@ == plain_options(ResamplerMethod::BucketCount),
    {
        Self::new(ResamplerMethod::BucketCount)
    }

    pub fn bucket_fraction(categories: Vec<F64>) -> (r: Self)
        ensures
            r@ == (OptionsView {
                categories: categories@,
                ..plain_options(ResamplerMethod::BucketFraction)
            }),
    {
        Self::new(ResamplerMethod::BucketFraction).with_bucket_categories(categories)
    }

    pub fn bucket_fraction_auto() -> (r: Self)
        ensures
            r@ == (OptionsView {
                categories_auto: true,
                ..plain_options(ResamplerMethod::BucketFraction)
            }),
    {
        Self::new(ResamplerMethod::BucketFraction).with_auto_bucket_categories()
    }

    pub fn ewa() -> (r: Self)
        ensures
            r@ == plain_options(ResamplerMethod::Ewa),
    {
        Self::new(ResamplerMethod::Ewa)
    }

    pub fn method(&self) -> (r: ResamplerMethod)
        ensures
            r == self@.method,
    {
        self.method
    }

    pub fn radius_of_influence(&self) -> (r: Option<F64>)
        ensures
            r == self@.radius,
    {
        self.radius_of_influence
    }

    pub fn fill_value(&self) -> (r: F64)
        ensures
            r == self@.fill_value,
    {
        self.fill_value
    }

    pub fn mask_missing(&self) -> (r: bool)
        ensures
            r == self@.mask_missing,
    {
        self.mask_missing
    }

    pub fn skipna(&self) -> (r: bool)
        ensures
            r == self@.skipna,
    {
        self.skipna
    }

    pub fn reduce_data(&self) -> (r: bool)
        ensures
            r == self@.reduce_data,
    {
        self.reduce_data
    }

    pub fn shape_divisible_by(&self) -> (r: Option<usize>)
        ensures
            r == self@.shape_divisible_by,
    {
        self.shape_divisible_by
    }

    pub fn bucket_categories(&self) -> (r: &Vec<F64>)
        ensures
            r@ == self@.categories,
    {
        &self.bucket_categories
    }

    pub fn bucket_categories_auto(&self) -> (r: bool)
        ensures
            r == self@.categories_auto,
    {
        self.bucket_categories_auto
    }

    pub fn with_method(self, method: ResamplerMethod) -> (r: Self)
        ensures
            r@ == (OptionsView { method, ..self@ }),
    {
        proof {
            use_type_invariant(&self);
        }
        ResampleOptions { method, ..self }
    }

    pub fn with_radius_of_influence(self, radius_of_influence: F64) -> (r: Result<Self>)
        ensures
            radius_of_influence.less(F64 { bits: 0 }) ==> is_invalid(
                r,
                "radius_of_influence must be non-negative"@,
            ),
            !radius_of_influence.less(F64 { bits: 0 }) ==> r is Ok && r->Ok_0@ == (OptionsView {
                radius: Some(radius_of_influence),
                ..self@
            }),
    {
        proof {
            use_type_invariant(&self);
        }
        if radius_of_influence.lt(F64 { bits: 0 }) {
            return Err(RustySatError::invalid_input("radius_of_influence must be non-negative"));
        }
        Ok(ResampleOptions { radius_of_influence: Some(radius_of_influence), ..self })
    }

    pub fn with_fill_value(self, fill_value: F64) -> (r: Self)
        ensures
            r@ == (OptionsView { fill_value, mask_missing: false, ..self@ }),
    {
        proof {
            use_type_invariant(&self);
        }
        ResampleOptions { fill_value, mask_missing: false, ..self }
    }

    pub fn with_masked_missing(self) -> (r: Self)
        ensures
            r@ == (OptionsView { mask_missing: true, ..self@ }),
    {
        proof {
            use_type_invariant(&self);
        }
        ResampleOptions { mask_missing: true, ..self }
    }

    pub fn with_skipna(self, skipna: bool) -> (r: Self)
        ensures
            r@ == (OptionsView { skipna, ..self@ }),
    {
        proof {
            use_type_invariant(&self);
        }
        ResampleOptions { skipna, ..self }
    }

    pub fn with_reduce_data(self, reduce_data: bool) -> (r: Self)
        ensures
            r@ == (OptionsView {
                reduce_data,
                shape_divisible_by: if reduce_data {
                    self@.shape_divisible_by
                } else {
                    None
                },
                ..self@
            }),
    {
        proof {
            use_type_invariant(&self);
        }
        let shape_divisible_by: Option<usize> = if reduce_data {
            self.shape_divisible_by
        } else {
            None
        };
        ResampleOptions { reduce_data, shape_divisible_by, ..self }
    }

    pub fn with_data_reduction(self) -> (r: Self)
        ensures
            r@ == (OptionsView { reduce_data: true, ..self@ }),
    {
        self.with_reduce_data(true)
    }

    pub fn without_data_reduction(self) -> (r: Self)
        ensures
            r@ == (OptionsView { reduce_data: false, shape_divisible_by: None, ..self@ }),
    {
        self.with_reduce_data(false)
    }

    pub fn with_shape_divisible_by(self, factor: usize) -> (r: Result<Self>)
        ensures
            factor == 0 ==> is_invalid(r, "shape_divisible_by must be greater than zero"@),
            factor > 0 ==> r is Ok && r->Ok_0@ == (OptionsView {
                reduce_data: true,
                shape_divisible_by: Some(factor),
                ..self@
            }),
    {
        proof {
            use_type_invariant(&self);
        }
        if factor == 0 {
            return Err(
                RustySatError::invalid_input("shape_divisible_by must be greater than zero"),
            );
        }
        Ok(ResampleOptions { reduce_data: true, shape_divisible_by: Some(factor), ..self })
    }

    pub fn with_bucket_categories(self, categories: Vec<F64>) -> (r: Self)
        ensures
            r@ == (OptionsView { categories: categories@, categories_auto: false, ..self@ }),
    {
        proof {
            use_type_invariant(&self);
        }
        ResampleOptions { bucket_categories: categories, bucket_categories_auto: false, ..self }
    }

    pub fn with_auto_bucket_categories(self) -> (r: Self)
        ensures
            r@ == (OptionsView { categories: Seq::empty(), categories_auto: true, ..self@ }),
    {
        proof {
            use_type_invariant(&self);
        }
        ResampleOptions { bucket_categories: Vec::new(), bucket_categories_auto: true, ..self }
    }

    pub fn copy(&self) -> (r: Self)
        ensures
            r@ == self@,
    {
        proof {
            use_type_invariant(self);
        }
        ResampleOptions {
            method: self.method,
            radius_of_influence: self.radius_of_influence,
            fill_value: self.fill_value,
            mask_missing: self.mask_missing,
            skipna: self.skipna,
            reduce_data: self.reduce_data,
            shape_divisible_by: self.shape_divisible_by,
            bucket_categories: copy_values(&self.bucket_categories),
            bucket_categories_auto: self.bucket_categories_auto,
        }
    }
}

impl Clone for ResampleOptions {
    fn clone(&self) -> (r: Self)
        ensures
            r@ == self@,
    {
        self.copy()
    }
}

/// A prepared resampler as a mathematical value.
#[verifier::ext_equal]
pub enum PreparedView {
    NearestArea(NearestAreaResamplerView),
    NearestSwath(NearestSwathResamplerView),
    Bilinear(BilinearAreaResamplerView),
    Native(AreaView),
    Bucket(BucketResamplerView),
    BucketFraction(BucketFractionView),
    Ewa(EwaResamplerView),
}

/// A resampler that is ready for data sets.
#[derive(Debug)]
pub enum PreparedResampler {
    NearestArea(NearestAreaResampler),
    NearestSwath(NearestSwathResampler),
    Bilinear(BilinearAreaResampler),
    Native(NativeResampler),
    Bucket(BucketResampler),
    BucketFraction(BucketFractionResampler),
    Ewa(EwaResampler),
}

impl View for PreparedResampler {
    type V = PreparedView;

    open spec fn view(&self) -> PreparedView {
        match self {
            PreparedResampler::NearestArea(r) => PreparedView::NearestArea(r@),
            PreparedResampler::NearestSwath(r) => PreparedView::NearestSwath(r@),
            PreparedResampler::Bilinear(r) => PreparedView::Bilinear(r@),
            PreparedResampler::Native(r) => PreparedView::Native(r@),
            PreparedResampler::Bucket(r) => PreparedView::Bucket(r@),
            PreparedResampler::BucketFraction(r) => PreparedView::BucketFraction(r@),
            PreparedResampler::Ewa(r) => PreparedView::Ewa(r@),
        }
    }
}

impl Clone for PreparedResampler {
    fn clone(&self) -> (r: Self)
        ensures
            r@ == self@,
    {
        match self {
            PreparedResampler::NearestArea(r) => PreparedResampler::NearestArea(r.clone()),
            PreparedResampler::NearestSwath(r) => PreparedResampler::NearestSwath(r.clone()),
            PreparedResampler::Bilinear(r) => PreparedResampler::Bilinear(r.clone()),
            PreparedResampler::Native(r) => PreparedResampler::Native(r.clone()),
            PreparedResampler::Bucket(r) => PreparedResampler::Bucket(r.clone()),
            PreparedResampler::BucketFraction(r) => PreparedResampler::BucketFraction(r.clone()),
            PreparedResampler::Ewa(r) => PreparedResampler::Ewa(r.clone()),
        }
    }
}

impl PreparedView {
    /// The method of a resampler.
    pub open spec fn method(self) -> ResamplerMethod {
        match self {
            PreparedView::NearestArea(_) => ResamplerMethod::NearestArea,
            PreparedView::NearestSwath(_) => ResamplerMethod::NearestArea,
            PreparedView::Bilinear(_) => ResamplerMethod::Bilinear,
            PreparedView::Native(_) => ResamplerMethod::Native,
            PreparedView::Bucket(b) => match b.statistic {
                BucketStatistic::Average => ResamplerMethod::BucketAverage,
                BucketStatistic::Sum => ResamplerMethod::BucketSum,
                BucketStatistic::Count => ResamplerMethod::BucketCount,
            },
            PreparedView::BucketFraction(_) => ResamplerMethod::BucketFraction,
            PreparedView::Ewa(_) => ResamplerMethod::Ewa,
        }
    }
}

/// Whether `out` is a data set on an area, by the method of a resampler, or the first
/// obstacle. `given` tells that the data set was given away.
pub open spec fn prepared_outcome<K: ResampleArithmetic>(
    out: Result<Dataset>,
    p: PreparedView,
    d: DatasetView,
    g: AreaGridView,
    given: bool,
    k: K,
) -> bool {
    match p {
        PreparedView::NearestArea(r) => nearest_area_outcome(
            out,
            d,
            r,
            g,
            k.place_of(),
            k.gap_of(),
        ),
        PreparedView::NearestSwath(r) => nearest_swath_outcome(out, d, r, g, k.distance_of()),
        PreparedView::Bilinear(r) => bilinear_dataset_outcome(
            out,
            d,
            r,
            g,
            if given {
                "bilinear resampling requires an f64 dataset grid"@
            } else {
                "bilinear resampling requires f64 dataset grid values"@
            },
            k.place_of(),
            k.mix_of(),
        ),
        PreparedView::Native(r) => native_dataset_outcome(out, d, r, g, k.mean_of()),
        PreparedView::Bucket(r) => bucket_dataset_outcome(
            out,
            d,
            r,
            g,
            if given {
                "bucket resampling requires an f64 dataset grid"@
            } else {
                "bucket resampling requires f64 dataset grid values"@
            },
            k.cell_of(),
            k.mean_of(),
            k.total_of(),
        ),
        PreparedView::BucketFraction(r) => fraction_dataset_outcome(
            out,
            d,
            r,
            g,
            if given {
                "bucket fraction resampling requires an f64 dataset grid"@
            } else {
                "bucket fraction resampling requires f64 dataset grid values"@
            },
            k.cell_of(),
            k.ratio_of(),
        ),
        PreparedView::Ewa(r) => ewa_dataset_outcome(
            out,
            d,
            r,
            g,
            if given {
                "EWA resampling requires an f64 dataset grid"@
            } else {
                "EWA resampling requires f64 dataset grid values"@
            },
            k.square_of(),
            k.bounds_of(),
            k.reach_of(),
            k.weight_of(),
            k.average_of(),
        ),
    }
}

/// Whether `out` is a data set on the pixels of an area, or the first obstacle.
pub open spec fn on_area<K: ResampleArithmetic>(
    out: Result<Dataset>,
    p: PreparedView,
    d: DatasetView,
    a: AreaView,
    given: bool,
    k: K,
) -> bool {
    if a.height * a.width > usize::MAX {
        is_invalid(out, "area size overflows usize"@)
    } else {
        exists|g: AreaGridView| #[trigger]
            has_centres(g, a, k.centre_of()) && prepared_outcome(out, p, d, g, given, k)
    }
}

/// Whether `arithmetic` gives, for every resampler and destination, functions that take every
/// argument.
pub open spec fn gives_functions<
    K: ResampleArithmetic,
    F: Fn(&PreparedResampler, &AreaDefinition) -> K,
>(arithmetic: F) -> bool {
    &&& forall|p: &PreparedResampler, a: &AreaDefinition| #[trigger] arithmetic.requires((p, a))
    &&& forall|p: &PreparedResampler, a: &AreaDefinition, k: K| #[trigger]
        arithmetic.ensures((p, a), k) ==> resamples_all(k)
}

/// Whether a resampler can take a data set: all but the native one take planes only.
pub open spec fn takes(p: PreparedView, d: DatasetView) -> bool {
    !(p is Native) && grid_of(d) is Some ==> is_plane(grid_of(d)->Some_0)
}

/// Whether the resampler that is wanted, if there is one, can take a data set.
pub open spec fn fits(
    wanted: core::result::Result<PreparedView, ErrorView>,
    d: DatasetView,
) -> bool {
    wanted matches Ok(p) ==> takes(p, d)
}

/// Whether `r` is what the resampler that is wanted makes of a data set on the destination,
/// with the functions that `arithmetic` gives for the two, or the error that is wanted.
/// `given` tells that the data set was given away.
pub open spec fn runs<
    K: ResampleArithmetic,
    F: Fn(&PreparedResampler, &AreaDefinition) -> K,
>(
    r: Result<Dataset>,
    wanted: core::result::Result<PreparedView, ErrorView>,
    d: DatasetView,
    destination: &AreaDefinition,
    given: bool,
    arithmetic: F,
) -> bool {
    match wanted {
        Err(e) => fails_with(r, e),
        Ok(p) => exists|resampler: PreparedResampler, k: K|
            resampler@ == p && #[trigger] arithmetic.ensures((&resampler, destination), k)
                && on_area(r, p, d, destination@, given, k),
    }
}

impl PreparedResampler {
    pub fn method(&self) -> (r: ResamplerMethod)
        ensures
            r == self@.method(),
    {
        match self {
            PreparedResampler::NearestArea(_) => ResamplerMethod::NearestArea,
            PreparedResampler::NearestSwath(_) => ResamplerMethod::NearestArea,
            PreparedResampler::Bilinear(_) => ResamplerMethod::Bilinear,
            PreparedResampler::Native(_) => ResamplerMethod::Native,
            PreparedResampler::Bucket(resampler) => match resampler.statistic() {
                BucketStatistic::Average => ResamplerMethod::BucketAverage,
                BucketStatistic::Sum => ResamplerMethod::BucketSum,
                BucketStatistic::Count => ResamplerMethod::BucketCount,
            },
            PreparedResampler::BucketFraction(_) => ResamplerMethod::BucketFraction,
            PreparedResampler::Ewa(_) => ResamplerMethod::Ewa,
        }
    }

    /// The name of the resampler.
    pub fn name(&self) -> (r: &str)
        ensures
            r@ == if self@ is NearestSwath {
                "nearest_swath"@
            } else {
                self@.method().label()
            },
    {
        match self {
            PreparedResampler::NearestArea(resampler) => resampler.name(),
            PreparedResampler::NearestSwath(resampler) => resampler.name(),
            PreparedResampler::Bilinear(resampler) => resampler.name(),
            PreparedResampler::Native(resampler) => resampler.name(),
            PreparedResampler::Bucket(resampler) => resampler.name(),
            PreparedResampler::BucketFraction(resampler) => resampler.name(),
            PreparedResampler::Ewa(resampler) => resampler.name(),
        }
    }

    /// The data set on an area. `arithmetic` gives the functions of numbers for a resampler and
    /// a destination.
    pub fn resample<K: ResampleArithmetic, F: Fn(&PreparedResampler, &AreaDefinition) -> K>(
        &self,
        dataset: &Dataset,
        destination: &AreaDefinition,
        arithmetic: &F,
    ) -> (out: Result<Dataset>)
        requires
            takes(self@, dataset@),
            gives_functions(*arithmetic),
        ensures
            runs(out, Ok(self@), dataset@, destination, false, *arithmetic),
    {
        let k = arithmetic(self, destination);
        assert(arithmetic.ensures((self, destination), k));
        let grid = match AreaGrid::with_centres(destination.copy(), k.centre()) {
            Ok(g) => g,
            Err(e) => {
                return Err(e);
            },
        };
        let ghost g = grid@;
        let ghost d = dataset@;
        let out = match self {
            PreparedResampler::NearestArea(resampler) => resampler.resample(
                dataset,
                &grid,
                k.place(),
                k.gap(),
            ),
            PreparedResampler::NearestSwath(resampler) => resampler.resample(
                dataset,
                &grid,
                k.distance(),
            ),
            PreparedResampler::Bilinear(resampler) => resampler.resample(
                dataset,
                &grid,
                k.place(),
                k.mix(),
            ),
            PreparedResampler::Native(resampler) => resampler.resample(dataset, &grid, k.mean()),
            PreparedResampler::Bucket(resampler) => resampler.resample(
                dataset,
                &grid,
                k.cell(),
                k.mean(),
                k.total(),
            ),
            PreparedResampler::BucketFraction(resampler) => resampler.resample(
                dataset,
                &grid,
                k.cell(),
                k.ratio(),
            ),
            PreparedResampler::Ewa(resampler) => resampler.resample(
                dataset,
                &grid,
                k.square(),
                k.bounds(),
                k.reach(),
                k.weight(),
                k.average(),
            ),
        };
        assert(has_centres(g, destination@, k.centre_of()));
        assert(prepared_outcome(out, self@, d, g, false, k));
        out
    }

    /// As `resample`, for a data set that is given away.
    pub fn resample_owned<K: ResampleArithmetic, F: Fn(&PreparedResampler, &AreaDefinition) -> K>(
        &self,
        dataset: Dataset,
        destination: &AreaDefinition,
        arithmetic: &F,
    ) -> (out: Result<Dataset>)
        requires
            takes(self@, dataset@),
            gives_functions(*arithmetic),
        ensures
            runs(out, Ok(self@), dataset@, destination, true, *arithmetic),
    {
        let k = arithmetic(self, destination);
        assert(arithmetic.ensures((self, destination), k));
        let grid = match AreaGrid::with_centres(destination.copy(), k.centre()) {
            Ok(g) => g,
            Err(e) => {
                return Err(e);
            },
        };
        let ghost g = grid@;
        let ghost d = dataset@;
        let out = match self {
            PreparedResampler::NearestArea(resampler) => resampler.resample(
                &dataset,
                &grid,
                k.place(),
                k.gap(),
            ),
            PreparedResampler::NearestSwath(resampler) => resampler.resample(
                &dataset,
                &grid,
                k.distance(),
            ),
            PreparedResampler::Bilinear(resampler) => resampler.resample_owned(
                dataset,
                &grid,
                k.place(),
                k.mix(),
            ),
            PreparedResampler::Native(resampler) => resampler.resample_owned(dataset, &grid, k.mean()),
            PreparedResampler::Bucket(resampler) => resampler.resample_owned(
                dataset,
                &grid,
                k.cell(),
                k.mean(),
                k.total(),
            ),
            PreparedResampler::BucketFraction(resampler) => resampler.resample_owned(
                dataset,
                &grid,
                k.cell(),
                k.ratio(),
            ),
            PreparedResampler::Ewa(resampler) => resampler.resample_owned(
                dataset,
                &grid,
                k.square(),
                k.bounds(),
                k.reach(),
                k.weight(),
                k.average(),
            ),
        };
        assert(has_centres(g, destination@, k.centre_of()));
        assert(prepared_outcome(out, self@, d, g, true, k));
        out
    }
}

/// Where the pixels of a data set are, as a mathematical value.
#[verifier::ext_equal]
pub enum GeometryView {
    Area(AreaView),
    Swath(SwathView),
}

/// Where the pixels of a data set are.
#[derive(Debug, PartialEq)]
pub enum SourceGeometry {
    Area(AreaDefinition),
    Swath(SwathDefinition),
}

impl View for SourceGeometry {
    type V = GeometryView;

    open spec fn view(&self) -> GeometryView {
        match self {
            SourceGeometry::Area(a) => GeometryView::Area(a@),
            SourceGeometry::Swath(s) => GeometryView::Swath(s@),
        }
    }
}

/// Whether two lists of numbers are equal as numbers.
pub open spec fn same_numbers(a: Seq<F64>, b: Seq<F64>) -> bool {
    a.len() == b.len() && forall|i: int|
        0 <= i < a.len() ==> (#[trigger] a[i]).same_number(b[i])
}

/// Whether two lists of numbers are equal as numbers, or both are not there.
pub open spec fn same_lists(a: Option<Seq<F64>>, b: Option<Seq<F64>>) -> bool {
    match a {
        Some(p) => b is Some && same_numbers(p, b->Some_0),
        None => b is None,
    }
}

/// Whether two areas are equal; their bounds are equal as numbers.
pub open spec fn same_area(a: AreaView, b: AreaView) -> bool {
    &&& a.id == b.id
    &&& a.description == b.description
    &&& a.proj_id == b.proj_id
    &&& a.projection == b.projection
    &&& a.height == b.height
    &&& a.width == b.width
    &&& same_numbers(a.extent, b.extent)
}

/// Whether two swaths are equal; their positions are equal as numbers.
pub open spec fn same_swath(a: SwathView, b: SwathView) -> bool {
    &&& a.height == b.height
    &&& a.width == b.width
    &&& same_lists(a.lons, b.lons)
    &&& same_lists(a.lats, b.lats)
    &&& a.crs == b.crs
}

/// Whether two geometries are equal.
pub open spec fn same_geometry(a: GeometryView, b: GeometryView) -> bool {
    match a {
        GeometryView::Area(p) => b is Area && same_area(p, b->Area_0),
        GeometryView::Swath(p) => b is Swath && same_swath(p, b->Swath_0),
    }
}

fn equal_numbers(a: &[F64], b: &[F64]) -> (r: bool)
    ensures
        r == same_numbers(a@, b@),
{
    if a.len() != b.len() {
        return false;
    }
    let mut i: usize = 0;
    while i < a.len()
        invariant
            i <= a@.len(),
            a@.len() == b@.len(),
            forall|j: int| 0 <= j < i ==> (#[trigger] a@[j]).same_number(b@[j]),
        decreases a@.len() - i,
    {
        if !a[i].equals(b[i]) {
            assert(!a@[i as int].same_number(b@[i as int]));
            return false;
        }
        i = i + 1;
    }
    true
}

fn equal_lists(a: Option<&Vec<F64>>, b: Option<&Vec<F64>>) -> (r: bool)
    ensures
        r == same_lists(
            match a {
                Some(v) => Some(v@),
                None => None,
            },
            match b {
                Some(v) => Some(v@),
                None => None,
            },
        ),
{
    match a {
        Some(p) => match b {
            Some(q) => equal_numbers(p.as_slice(), q.as_slice()),
            None => false,
        },
        None => match b {
            Some(_) => false,
            None => true,
        },
    }
}

fn equal_areas(a: &AreaDefinition, b: &AreaDefinition) -> (r: bool)
    ensures
        r == same_area(a@, b@),
{
    let p = a.area_extent();
    let q = b.area_extent();
    same_text(a.id(), b.id()) && same_text(a.description(), b.description()) && same_text(
        a.proj_id(),
        b.proj_id(),
    ) && a.projection().same_as(b.projection()) && a.height() == b.height() && a.width()
        == b.width() && equal_numbers(p.as_slice(), q.as_slice())
}

fn equal_swaths(a: &SwathDefinition, b: &SwathDefinition) -> (r: bool)
    ensures
        r == same_swath(a@, b@),
{
    let p = a.shape();
    let q = b.shape();
    p.0 == q.0 && p.1 == q.1 && equal_lists(a.lons(), b.lons()) && equal_lists(a.lats(), b.lats())
        && a.crs().same_as(b.crs())
}

impl SourceGeometry {
    pub fn area(area: AreaDefinition) -> (r: Self)
        ensures
            r@ == GeometryView::Area(area@),
    {
        SourceGeometry::Area(area)
    }

    pub fn swath(swath: SwathDefinition) -> (r: Self)
        ensures
            r@ == GeometryView::Swath(swath@),
    {
        SourceGeometry::Swath(swath)
    }

    /// Whether two geometries are equal.
    pub fn equals(&self, other: &Self) -> (r: bool)
        ensures
            r == same_geometry(self@, other@),
    {
        match self {
            SourceGeometry::Area(a) => match other {
                SourceGeometry::Area(b) => equal_areas(a, b),
                SourceGeometry::Swath(_) => false,
            },
            SourceGeometry::Swath(a) => match other {
                SourceGeometry::Area(_) => false,
                SourceGeometry::Swath(b) => equal_swaths(a, b),
            },
        }
    }

    pub fn copy(&self) -> (r: Self)
        ensures
            r@ == self@,
    {
        match self {
            SourceGeometry::Area(a) => SourceGeometry::Area(a.copy()),
            SourceGeometry::Swath(s) => SourceGeometry::Swath(s.copy()),
        }
    }
}

impl Clone for SourceGeometry {
    fn clone(&self) -> (r: Self)
        ensures
            r@ == self@,
    {
        self.copy()
    }
}

/// The error for a geometry that a method does not take.
pub open spec fn not_from(text: Seq<char>) -> core::result::Result<PreparedView, ErrorView> {
    Err(ErrorView::Unsupported(text))
}

/// The resampler that the options choose for a geometry, or the error where there is
/// none.
pub open spec fn prepared(source: GeometryView, o: OptionsView) -> core::result::Result<
    PreparedView,
    ErrorView,
> {
    let negative = o.radius is Some && o.radius->Some_0.less(F64 { bits: 0 });
    let fill = if o.mask_missing {
        F64 { bits: NAN_BITS_64 }
    } else {
        o.fill_value
    };
    match o.method {
        ResamplerMethod::NearestArea => if negative {
            Err(ErrorView::InvalidInput("radius_of_influence must be non-negative"@))
        } else {
            let policy = if o.mask_missing {
                MissingValuePolicy::Mask
            } else {
                MissingValuePolicy::FillValue
            };
            match source {
                GeometryView::Area(source) => Ok(
                    PreparedView::NearestArea(
                        NearestAreaResamplerView {
                            source,
                            radius: o.radius,
                            fill_value: fill,
                            policy,
                        },
                    ),
                ),
                GeometryView::Swath(source) => Ok(
                    PreparedView::NearestSwath(
                        NearestSwathResamplerView {
                            source,
                            radius: o.radius,
                            fill_value: fill,
                            policy,
                        },
                    ),
                ),
            }
        },
        ResamplerMethod::Bilinear => match source {
            GeometryView::Area(source) => Ok(
                PreparedView::Bilinear(
                    BilinearAreaResamplerView {
                        source,
                        fill_value: fill,
                        policy: if o.mask_missing {
                            BilinearMissingPolicy::Mask
                        } else {
                            BilinearMissingPolicy::FillValue
                        },
                    },
                ),
            ),
            GeometryView::Swath(_) => not_from(
                "bilinear pipeline preparation from swath geometry"@,
            ),
        },
        ResamplerMethod::Native => match source {
            GeometryView::Area(source) => Ok(PreparedView::Native(source)),
            GeometryView::Swath(_) => not_from("native pipeline preparation from swath geometry"@),
        },
        ResamplerMethod::BucketAverage => match source {
            GeometryView::Area(_) => not_from(
                "bucket average pipeline preparation from area geometry"@,
            ),
            GeometryView::Swath(source) => Ok(
                PreparedView::Bucket(
                    BucketResamplerView {
                        fill_value: o.fill_value,
                        skipna: o.skipna,
                        ..new_bucket(source, BucketStatistic::Average)
                    },
                ),
            ),
        },
        ResamplerMethod::BucketSum => match source {
            GeometryView::Area(_) => not_from(
                "bucket sum pipeline preparation from area geometry"@,
            ),
            GeometryView::Swath(source) => Ok(
                PreparedView::Bucket(
                    BucketResamplerView {
                        fill_value: o.fill_value,
                        skipna: o.skipna,
                        ..new_bucket(source, BucketStatistic::Sum)
                    },
                ),
            ),
        },
        ResamplerMethod::BucketCount => match source {
            GeometryView::Area(_) => not_from(
                "bucket count pipeline preparation from area geometry"@,
            ),
            GeometryView::Swath(source) => Ok(
                PreparedView::Bucket(new_bucket(source, BucketStatistic::Count)),
            ),
        },
        ResamplerMethod::BucketFraction => match source {
            GeometryView::Area(_) => not_from(
                "bucket fraction pipeline preparation from area geometry"@,
            ),
            GeometryView::Swath(source) => if o.categories_auto {
                Ok(
                    PreparedView::BucketFraction(
                        BucketFractionView { source, categories: None, fill_value: o.fill_value },
                    ),
                )
            } else {
                match categories_error(o.categories) {
                    Some(e) => Err(e),
                    None => Ok(
                        PreparedView::BucketFraction(
                            BucketFractionView {
                                source,
                                categories: Some(o.categories),
                                fill_value: o.fill_value,
                            },
                        ),
                    ),
                }
            },
        },
        ResamplerMethod::Ewa => match source {
            GeometryView::Area(_) => not_from("EWA pipeline preparation from area geometry"@),
            GeometryView::Swath(source) => match o.radius {
                None => Err(
                    ErrorView::InvalidInput(
                        "EWA pipeline preparation requires radius_of_influence"@,
                    ),
                ),
                Some(radius) => if !positive(radius) {
                    Err(
                        ErrorView::InvalidInput(
                            "EWA radius_of_influence must be finite and positive"@,
                        ),
                    )
                } else {
                    Ok(
                        PreparedView::Ewa(
                            EwaResamplerView {
                                source,
                                options: EwaView {
                                    fill_value: o.fill_value,
                                    mask_missing: o.mask_missing,
                                    ..default_options(radius)
                                },
                            },
                        ),
                    )
                },
            },
        },
    }
}

/// A prepared resampler has the method that was chosen.
pub proof fn lemma_prepared_method(source: GeometryView, o: OptionsView)
    ensures
        prepared(source, o) matches Ok(p) ==> p.method() == o.method,
{
}

/// Whether `r` is the resampler that is wanted, or the error that is wanted.
pub open spec fn prepares(
    r: Result<PreparedResampler>,
    wanted: core::result::Result<PreparedView, ErrorView>,
) -> bool {
    match wanted {
        Ok(p) => r is Ok && r->Ok_0@ == p,
        Err(e) => fails_with(r, e),
    }
}

/// The resampler that the options choose for an area.
pub fn prepare_resampler(
    source: AreaDefinition,
    destination: &AreaDefinition,
    options: ResampleOptions,
) -> (r: Result<PreparedResampler>)
    ensures
        prepares(r, prepared(GeometryView::Area(source@), options@)),
{
    prepare_resampler_for_geometry(SourceGeometry::Area(source), destination, options)
}

/// The resampler that the options choose for a geometry, whatever the destination.
pub fn prepare_resampler_for_geometry(
    source: SourceGeometry,
    _destination: &AreaDefinition,
    options: ResampleOptions,
) -> (r: Result<PreparedResampler>)
    ensures
        prepares(r, prepared(source@, options@)),
{
    match options.method {
        ResamplerMethod::NearestArea => match source {
            SourceGeometry::Area(source) => {
                let mut resampler = NearestAreaResampler::new(source);
                match options.radius_of_influence {
                    Some(radius) => {
                        resampler = match resampler.with_radius_of_influence(radius) {
                            Ok(r) => r,
                            Err(e) => {
                                return Err(e);
                            },
                        };
                    },
                    None => {},
                }
                let resampler = if options.mask_missing {
                    resampler.with_masked_missing()
                } else {
                    resampler.with_fill_value(options.fill_value)
                };
                Ok(PreparedResampler::NearestArea(resampler))
            },
            SourceGeometry::Swath(source) => {
                let mut resampler = NearestSwathResampler::new(source);
                match options.radius_of_influence {
                    Some(radius) => {
                        resampler = match resampler.with_radius_of_influence(radius) {
                            Ok(r) => r,
                            Err(e) => {
                                return Err(e);
                            },
                        };
                    },
                    None => {},
                }
                let resampler = if options.mask_missing {
                    resampler.with_masked_missing()
                } else {
                    resampler.with_fill_value(options.fill_value)
                };
                Ok(PreparedResampler::NearestSwath(resampler))
            },
        },
        ResamplerMethod::Bilinear => match source {
            SourceGeometry::Area(source) => {
                let resampler = BilinearAreaResampler::new(source);
                let resampler = if options.mask_missing {
                    resampler.with_masked_missing()
                } else {
                    resampler.with_fill_value(options.fill_value)
                };
                Ok(PreparedResampler::Bilinear(resampler))
            },
            SourceGeometry::Swath(_) => Err(
                RustySatError::unsupported("bilinear pipeline preparation from swath geometry"),
            ),
        },
        ResamplerMethod::Native => match source {
            SourceGeometry::Area(source) => Ok(
                PreparedResampler::Native(NativeResampler::new(source)),
            ),
            SourceGeometry::Swath(_) => Err(
                RustySatError::unsupported("native pipeline preparation from swath geometry"),
            ),
        },
        ResamplerMethod::BucketAverage => match source {
            SourceGeometry::Area(_) => Err(
                RustySatError::unsupported(
                    "bucket average pipeline preparation from area geometry",
                ),
            ),
            SourceGeometry::Swath(source) => Ok(
                PreparedResampler::Bucket(
                    BucketResampler::average(source).with_fill_value(
                        options.fill_value,
                    ).with_skipna(options.skipna),
                ),
            ),
        },
        ResamplerMethod::BucketSum => match source {
            SourceGeometry::Area(_) => Err(
                RustySatError::unsupported("bucket sum pipeline preparation from area geometry"),
            ),
            SourceGeometry::Swath(source) => Ok(
                PreparedResampler::Bucket(
                    BucketResampler::sum(source).with_fill_value(options.fill_value).with_skipna(
                        options.skipna,
                    ),
                ),
            ),
        },
        ResamplerMethod::BucketCount => match source {
            SourceGeometry::Area(_) => Err(
                RustySatError::unsupported("bucket count pipeline preparation from area geometry"),
            ),
            SourceGeometry::Swath(source) => Ok(
                PreparedResampler::Bucket(BucketResampler::count(source)),
            ),
        },
        ResamplerMethod::BucketFraction => match source {
            SourceGeometry::Area(_) => Err(
                RustySatError::unsupported(
                    "bucket fraction pipeline preparation from area geometry",
                ),
            ),
            SourceGeometry::Swath(source) => {
                let resampler = if options.bucket_categories_auto {
                    BucketFractionResampler::auto_categories(source)
                } else {
                    match BucketFractionResampler::new(
                        source,
                        copy_values(&options.bucket_categories),
                    ) {
                        Ok(r) => r,
                        Err(e) => {
                            return Err(e);
                        },
                    }
                };
                Ok(
                    PreparedResampler::BucketFraction(
                        resampler.with_fill_value(options.fill_value),
                    ),
                )
            },
        },
        ResamplerMethod::Ewa => match source {
            SourceGeometry::Area(_) => Err(
                RustySatError::unsupported("EWA pipeline preparation from area geometry"),
            ),
            SourceGeometry::Swath(source) => {
                let radius = match options.radius_of_influence {
                    Some(radius) => radius,
                    None => {
                        return Err(
                            RustySatError::invalid_input(
                                "EWA pipeline preparation requires radius_of_influence",
                            ),
                        );
                    },
                };
                let ewa_options = match EwaOptions::new(radius) {
                    Ok(o) => o.with_fill_value(options.fill_value),
                    Err(e) => {
                        return Err(e);
                    },
                };
                let ewa_options = if options.mask_missing {
                    ewa_options.with_masked_missing(true)
                } else {
                    ewa_options
                };
                Ok(PreparedResampler::Ewa(EwaResampler::new(source, ewa_options)))
            },
        },
    }
}

/// An entry of the cache as a mathematical value.
#[verifier::ext_equal]
pub struct CachedView {
    pub source: GeometryView,
    pub destination: AreaView,
    pub options: OptionsView,
    pub resampler: PreparedView,
}

/// A resampler with what it was prepared for.
#[derive(Debug)]
struct CachedResampler {
    source: SourceGeometry,
    destination: AreaDefinition,
    options: ResampleOptions,
    resampler: PreparedResampler,
}

impl View for CachedResampler {
    type V = CachedView;

    closed spec fn view(&self) -> CachedView {
        CachedView {
            source: self.source@,
            destination: self.destination@,
            options: self.options@,
            resampler: self.resampler@,
        }
    }
}

impl Clone for CachedResampler {
    fn clone(&self) -> (r: Self)
        ensures
            r@ == self@,
    {
        CachedResampler {
            source: self.source.clone(),
            destination: self.destination.clone(),
            options: self.options.clone(),
            resampler: self.resampler.clone(),
        }
    }
}

/// Resamplers that were prepared before, with what they were prepared for.
#[derive(Debug)]
pub struct ResamplerCache {
    entries: Vec<CachedResampler>,
}

impl View for ResamplerCache {
    type V = Seq<CachedView>;

    closed spec fn view(&self) -> Seq<CachedView> {
        Seq::new(self.entries@.len(), |i: int| self.entries@[i]@)
    }
}

impl Clone for ResamplerCache {
    fn clone(&self) -> (r: Self)
        ensures
            r@ == self@,
    {
        proof {
            use_type_invariant(self);
        }
        let mut entries: Vec<CachedResampler> = Vec::new();
        let mut i: usize = 0;
        while i < self.entries.len()
            invariant
                i <= self.entries@.len(),
                entries@.len() == i,
                forall|j: int| 0 <= j < i ==> (#[trigger] entries@[j])@ == self.entries@[j]@,
            decreases self.entries@.len() - i,
        {
            entries.push(self.entries[i].clone());
            i = i + 1;
        }
        let ghost view = Seq::new(entries@.len(), |j: int| entries@[j]@);
        assert(view =~= self@);
        ResamplerCache { entries }
    }
}

/// Whether an entry serves a geometry, a destination and options.
pub open spec fn serves(
    entry: CachedView,
    source: GeometryView,
    destination: AreaView,
    o: OptionsView,
) -> bool {
    &&& same_geometry(entry.source, source)
    &&& same_area(entry.destination, destination)
    &&& entry.options == o
}

/// Where the first entry that serves stands, or the number of entries where none does.
pub open spec fn first_serving(
    entries: Seq<CachedView>,
    source: GeometryView,
    destination: AreaView,
    o: OptionsView,
) -> int
    decreases entries.len(),
{
    if entries.len() == 0 {
        0
    } else if serves(entries[0], source, destination, o) {
        0
    } else {
        1 + first_serving(entries.drop_first(), source, destination, o)
    }
}

/// What holds of every cache: each entry has the resampler of its geometry and options.
pub open spec fn cache_ok(entries: Seq<CachedView>) -> bool {
    forall|i: int|
        0 <= i < entries.len() ==> prepared(
            (#[trigger] entries[i]).source,
            entries[i].options,
        ) == Ok::<PreparedView, ErrorView>(entries[i].resampler)
}

fn same_options(left: &ResampleOptions, right: &ResampleOptions) -> (r: bool)
    ensures
        r == (left@ == right@),
{
    let a = &left.bucket_categories;
    let b = &right.bucket_categories;
    let plain = left.method == right.method && same_optional_number(
        left.radius_of_influence,
        right.radius_of_influence,
    ) && left.fill_value.bits == right.fill_value.bits && left.mask_missing == right.mask_missing
        && left.skipna == right.skipna && left.reduce_data == right.reduce_data
        && same_optional_size(left.shape_divisible_by, right.shape_divisible_by)
        && left.bucket_categories_auto == right.bucket_categories_auto && a.len() == b.len();
    if !plain {
        return false;
    }
    let mut i: usize = 0;
    while i < a.len()
        invariant
            i <= a@.len(),
            a@.len() == b@.len(),
            left@.categories == a@,
            right@.categories == b@,
            forall|j: int| 0 <= j < i ==> #[trigger] a@[j] == b@[j],
        decreases a@.len() - i,
    {
        if a[i].bits != b[i].bits {
            assert(a@[i as int] != b@[i as int]);
            return false;
        }
        i = i + 1;
    }
    assert(a@ =~= b@);
    assert(left@ =~= right@);
    true
}

fn same_optional_number(a: Option<F64>, b: Option<F64>) -> (r: bool)
    ensures
        r == (a == b),
{
    match a {
        Some(x) => match b {
            Some(y) => x.bits == y.bits,
            None => false,
        },
        None => b.is_none(),
    }
}

fn same_optional_size(a: Option<usize>, b: Option<usize>) -> (r: bool)
    ensures
        r == (a == b),
{
    match a {
        Some(x) => match b {
            Some(y) => x == y,
            None => false,
        },
        None => b.is_none(),
    }
}

impl Default for ResamplerCache {
    fn default() -> (r: Self)
        ensures
            r@ == Seq::<CachedView>::empty(),
    {
        Self::new()
    }
}

/// The cache after a resampler was asked for: unchanged where an entry serves or where
/// none can be prepared, else with one more entry.
pub open spec fn cache_after(
    entries: Seq<CachedView>,
    source: GeometryView,
    destination: AreaView,
    options: OptionsView,
) -> Seq<CachedView> {
    if first_serving(entries, source, destination, options) < entries.len() {
        entries
    } else {
        match prepared(source, options) {
            Ok(resampler) => entries.push(
                CachedView { source, destination, options, resampler },
            ),
            Err(_) => entries,
        }
    }
}

/// The resampler that a cache gives: that of the first entry that serves, or a new one.
pub open spec fn cached_or_prepared(
    entries: Seq<CachedView>,
    source: GeometryView,
    destination: AreaView,
    options: OptionsView,
) -> core::result::Result<PreparedView, ErrorView> {
    let i = first_serving(entries, source, destination, options);
    if i < entries.len() {
        Ok(entries[i].resampler)
    } else {
        prepared(source, options)
    }
}

impl ResamplerCache {
    #[verifier::type_invariant]
    pub open spec fn inv(&self) -> bool {
        cache_ok(self@)
    }

    pub fn new() -> (r: Self)
        ensures
            r@ == Seq::<CachedView>::empty(),
    {
        let entries: Vec<CachedResampler> = Vec::new();
        let r = ResamplerCache { entries };
        assert(r@ =~= Seq::<CachedView>::empty());
        r
    }

    pub fn len(&self) -> (r: usize)
        ensures
            r == self@.len(),
    {
        self.entries.len()
    }

    pub fn is_empty(&self) -> (r: bool)
        ensures
            r == (self@.len() == 0),
    {
        self.entries.len() == 0
    }

    pub fn clear(&mut self)
        ensures
            final(self)@ == Seq::<CachedView>::empty(),
    {
        let entries: Vec<CachedResampler> = Vec::new();
        let fresh = ResamplerCache { entries };
        assert(fresh@ =~= Seq::<CachedView>::empty());
        *self = fresh;
    }

    fn find(
        &self,
        source: &SourceGeometry,
        destination: &AreaDefinition,
        options: &ResampleOptions,
    ) -> (r: usize)
        ensures
            r == first_serving(self@, source@, destination@, options@),
            r <= self@.len(),
    {
        let ghost entries = self@;
        assert(entries.skip(0) =~= entries);
        let mut i: usize = 0;
        while i < self.entries.len()
            invariant
                i <= self.entries@.len(),
                entries == self@,
                first_serving(entries, source@, destination@, options@) == i + first_serving(
                    entries.skip(i as int),
                    source@,
                    destination@,
                    options@,
                ),
            decreases self.entries@.len() - i,
        {
            proof {
                let rest = entries.skip(i as int);
                assert(rest[0] == self.entries@[i as int]@);
                assert(rest.drop_first() =~= entries.skip(i + 1));
            }
            let entry = &self.entries[i];
            if entry.source.equals(source) && equal_areas(&entry.destination, destination)
                && same_options(&entry.options, options) {
                return i;
            }
            i = i + 1;
        }
        assert(entries.skip(i as int).len() == 0);
        i
    }

    /// The resampler for an area, a destination and options.
    pub fn prepare(
        &mut self,
        source: AreaDefinition,
        destination: &AreaDefinition,
        options: ResampleOptions,
    ) -> (r: Result<&PreparedResampler>)
        ensures
            final(self)@ == cache_after(
                old(self)@,
                GeometryView::Area(source@),
                destination@,
                options@,
            ),
            match cached_or_prepared(
                old(self)@,
                GeometryView::Area(source@),
                destination@,
                options@,
            ) {
                Ok(p) => r is Ok && r->Ok_0@ == p,
                Err(e) => fails_with(r, e),
            },
    {
        self.prepare_for_geometry(SourceGeometry::Area(source), destination, options)
    }

    /// The resampler for a geometry, a destination and options.
    pub fn prepare_for_geometry(
        &mut self,
        source: SourceGeometry,
        destination: &AreaDefinition,
        options: ResampleOptions,
    ) -> (r: Result<&PreparedResampler>)
        ensures
            final(self)@ == cache_after(old(self)@, source@, destination@, options@),
            match cached_or_prepared(old(self)@, source@, destination@, options@) {
                Ok(p) => r is Ok && r->Ok_0@ == p,
                Err(e) => fails_with(r, e),
            },
    {
        proof {
            use_type_invariant(&*self);
        }
        let index: usize = self.find(&source, destination, &options);
        let ghost before = self@;
        if index < self.entries.len() {
            assert(before[index as int] == self.entries@[index as int]@);
            return Ok(&self.entries[index].resampler);
        }
        let ghost view = CachedView {
            source: source@,
            destination: destination@,
            options: options@,
            resampler: prepared(source@, options@)->Ok_0,
        };
        let resampler = match prepare_resampler_for_geometry(
            source.copy(),
            destination,
            options.copy(),
        ) {
            Ok(r) => r,
            Err(e) => {
                return Err(e);
            },
        };
        let entry = CachedResampler { source, destination: destination.copy(), options, resampler };
        let mut entries: Vec<CachedResampler> = Vec::new();
        std::mem::swap(&mut entries, &mut self.entries);
        entries.push(entry);
        proof {
            let after = ResamplerCache { entries };
            assert(entry@ == view);
            assert(after@ =~= before.push(view));
        }
        self.entries = entries;
        Ok(&self.entries[index].resampler)
    }
}

/// Whether no number of a list is missing.
pub open spec fn all_numbers(list: Seq<F64>) -> bool {
    forall|i: int| 0 <= i < list.len() ==> !(#[trigger] list[i]).nan()
}

/// Whether a geometry equals itself: none of its numbers is missing.
pub open spec fn has_numbers(source: GeometryView) -> bool {
    match source {
        GeometryView::Area(a) => all_numbers(a.extent),
        GeometryView::Swath(s) => {
            &&& s.lons is Some ==> all_numbers(s.lons->Some_0)
            &&& s.lats is Some ==> all_numbers(s.lats->Some_0)
        },
    }
}

proof fn lemma_served_by_last(
    entries: Seq<CachedView>,
    entry: CachedView,
    source: GeometryView,
    destination: AreaView,
    o: OptionsView,
)
    requires
        serves(entry, source, destination, o),
        first_serving(entries, source, destination, o) >= entries.len(),
    ensures
        first_serving(entries.push(entry), source, destination, o) == entries.len(),
    decreases entries.len(),
{
    if entries.len() == 0 {
        assert(entries.push(entry)[0] == entry);
    } else {
        lemma_served_by_last(entries.drop_first(), entry, source, destination, o);
        assert(entries.push(entry).drop_first() =~= entries.drop_first().push(entry));
        assert(entries.push(entry)[0] == entries[0]);
    }
}

/// A resampler is prepared once: asked again for the same, the cache gives the same
/// resampler and does not grow. A geometry with a number that is missing does not equal
/// itself and is left out.
pub proof fn lemma_prepared_once(
    entries: Seq<CachedView>,
    source: GeometryView,
    destination: AreaView,
    o: OptionsView,
)
    requires
        has_numbers(source),
        all_numbers(destination.extent),
        cached_or_prepared(entries, source, destination, o) is Ok,
    ensures
        ({
            let after = cache_after(entries, source, destination, o);
            &&& cached_or_prepared(after, source, destination, o) == cached_or_prepared(
                entries,
                source,
                destination,
                o,
            )
            &&& cache_after(after, source, destination, o) == after
        }),
{
    let i = first_serving(entries, source, destination, o);
    if i >= entries.len() {
        let entry = CachedView {
            source,
            destination,
            options: o,
            resampler: prepared(source, o)->Ok_0,
        };
        assert(same_numbers(destination.extent, destination.extent));
        match source {
            GeometryView::Area(a) => {
                assert(same_numbers(a.extent, a.extent));
            },
            GeometryView::Swath(s) => {
                if s.lons is Some {
                    assert(same_numbers(s.lons->Some_0, s.lons->Some_0));
                }
                if s.lats is Some {
                    assert(same_numbers(s.lats->Some_0, s.lats->Some_0));
                }
            },
        }
        lemma_served_by_last(entries, entry, source, destination, o);
        assert(entries.push(entry)[entries.len() as int] == entry);
    }
}

proof fn lemma_first_serves(
    entries: Seq<CachedView>,
    source: GeometryView,
    destination: AreaView,
    o: OptionsView,
)
    ensures
        ({
            let i = first_serving(entries, source, destination, o);
            0 <= i < entries.len() ==> serves(entries[i], source, destination, o)
        }),
        0 <= first_serving(entries, source, destination, o) <= entries.len(),
    decreases entries.len(),
{
    if entries.len() > 0 && !serves(entries[0], source, destination, o) {
        lemma_first_serves(entries.drop_first(), source, destination, o);
    }
}

/// What a cache gives is a resampler of an equal geometry with the same options.
pub proof fn lemma_cached_fits(
    entries: Seq<CachedView>,
    source: GeometryView,
    destination: AreaView,
    o: OptionsView,
)
    requires
        cache_ok(entries),
        cached_or_prepared(entries, source, destination, o) is Ok,
        has_numbers(source),
    ensures
        exists|equal: GeometryView|
            same_geometry(equal, source) && #[trigger] prepared(equal, o) == cached_or_prepared(
                entries,
                source,
                destination,
                o,
            ),
{
    lemma_first_serves(entries, source, destination, o);
    let i = first_serving(entries, source, destination, o);
    if i < entries.len() {
        assert(serves(entries[i], source, destination, o));
        assert(prepared(entries[i].source, o) == Ok::<PreparedView, ErrorView>(
            entries[i].resampler,
        ));
    } else {
        match source {
            GeometryView::Area(a) => {
                assert(same_numbers(a.extent, a.extent));
            },
            GeometryView::Swath(s) => {
                if s.lons is Some {
                    assert(same_numbers(s.lons->Some_0, s.lons->Some_0));
                }
                if s.lats is Some {
                    assert(same_numbers(s.lats->Some_0, s.lats->Some_0));
                }
            },
        }
        assert(same_geometry(source, source));
        assert(prepared(source, o) == cached_or_prepared(entries, source, destination, o));
    }
}

/// Whether `part` is the part of a data set that a target covers, with the area of the part,
/// or the first obstacle.
pub open spec fn is_part<C: SliceArithmetic>(
    part: Result<(Dataset, AreaDefinition)>,
    d: DatasetView,
    source: AreaView,
    target: AreaView,
    factor: Option<usize>,
    c: C,
) -> bool {
    reduction_outcome(
        part,
        d,
        source,
        target,
        factor,
        c.read_of(),
        c.pixel_size_of(),
        c.column_of(),
        c.row_of(),
        c.excess_of(),
        c.offset_of(),
        c.offset_down_of(),
    )
}

/// Whether `r` is a part of a data set on the destination, by the resampler for the area of
/// the part, or the first obstacle. `part` is the part with its area.
pub open spec fn runs_part<
    K: ResampleArithmetic,
    F: Fn(&PreparedResampler, &AreaDefinition) -> K,
>(
    r: Result<Dataset>,
    part: Result<(Dataset, AreaDefinition)>,
    destination: &AreaDefinition,
    o: OptionsView,
    arithmetic: F,
) -> bool {
    match part {
        Err(e) => fails_with(r, e@),
        Ok((dataset, source)) => runs(
            r,
            prepared(GeometryView::Area(source@), o),
            dataset@,
            destination,
            true,
            arithmetic,
        ),
    }
}

/// As `runs_part`, with the resampler that a cache gives; `after` is the cache then.
pub open spec fn runs_part_cached<
    K: ResampleArithmetic,
    F: Fn(&PreparedResampler, &AreaDefinition) -> K,
>(
    r: Result<Dataset>,
    entries: Seq<CachedView>,
    after: Seq<CachedView>,
    part: Result<(Dataset, AreaDefinition)>,
    destination: &AreaDefinition,
    o: OptionsView,
    arithmetic: F,
) -> bool {
    match part {
        Err(e) => fails_with(r, e@) && after == entries,
        Ok((dataset, source)) => {
            &&& runs(
                r,
                cached_or_prepared(entries, GeometryView::Area(source@), destination@, o),
                dataset@,
                destination,
                true,
                arithmetic,
            )
            &&& after == cache_after(entries, GeometryView::Area(source@), destination@, o)
        },
    }
}

/// Whether `r` is the part of a data set that the destination covers, resampled, or the first
/// obstacle.
pub open spec fn reduced_outcome<
    K: ResampleArithmetic,
    F: Fn(&PreparedResampler, &AreaDefinition) -> K,
    C: SliceArithmetic,
>(
    r: Result<Dataset>,
    d: DatasetView,
    source: AreaView,
    destination: &AreaDefinition,
    o: OptionsView,
    arithmetic: F,
    c: C,
) -> bool {
    exists|part: Result<(Dataset, AreaDefinition)>| #[trigger]
        is_part(part, d, source, destination@, o.shape_divisible_by, c) && runs_part(
            r,
            part,
            destination,
            o,
            arithmetic,
        )
}

/// As `reduced_outcome`, with a resampler from the cache; `after` is the cache then.
pub open spec fn reduced_outcome_cached<
    K: ResampleArithmetic,
    F: Fn(&PreparedResampler, &AreaDefinition) -> K,
    C: SliceArithmetic,
>(
    r: Result<Dataset>,
    entries: Seq<CachedView>,
    after: Seq<CachedView>,
    d: DatasetView,
    source: AreaView,
    destination: &AreaDefinition,
    o: OptionsView,
    arithmetic: F,
    c: C,
) -> bool {
    exists|part: Result<(Dataset, AreaDefinition)>| #[trigger]
        is_part(part, d, source, destination@, o.shape_divisible_by, c) && runs_part_cached(
            r,
            entries,
            after,
            part,
            destination,
            o,
            arithmetic,
        )
}

/// Whether `r` is a data set on the destination, reduced first where the options say so.
/// `given` tells that the data set was given away.
pub open spec fn area_outcome_of<
    K: ResampleArithmetic,
    F: Fn(&PreparedResampler, &AreaDefinition) -> K,
    C: SliceArithmetic,
>(
    r: Result<Dataset>,
    d: DatasetView,
    source: AreaView,
    destination: &AreaDefinition,
    o: OptionsView,
    given: bool,
    arithmetic: F,
    c: C,
) -> bool {
    if o.reduce_data {
        reduced_outcome(r, d, source, destination, o, arithmetic, c)
    } else {
        runs(r, prepared(GeometryView::Area(source), o), d, destination, given, arithmetic)
    }
}

/// As `area_outcome_of`, with a resampler from the cache; `after` is the cache then.
pub open spec fn area_outcome_cached<
    K: ResampleArithmetic,
    F: Fn(&PreparedResampler, &AreaDefinition) -> K,
    C: SliceArithmetic,
>(
    r: Result<Dataset>,
    entries: Seq<CachedView>,
    after: Seq<CachedView>,
    d: DatasetView,
    source: AreaView,
    destination: &AreaDefinition,
    o: OptionsView,
    given: bool,
    arithmetic: F,
    c: C,
) -> bool {
    if o.reduce_data {
        reduced_outcome_cached(r, entries, after, d, source, destination, o, arithmetic, c)
    } else {
        &&& runs(
            r,
            cached_or_prepared(entries, GeometryView::Area(source), destination@, o),
            d,
            destination,
            given,
            arithmetic,
        )
        &&& after == cache_after(entries, GeometryView::Area(source), destination@, o)
    }
}

/// Whether a data set can be put on a destination from its area: it is a plane where it is
/// reduced first, else the resampler that is wanted can take it.
pub open spec fn area_fits(
    wanted: core::result::Result<PreparedView, ErrorView>,
    d: DatasetView,
    o: OptionsView,
) -> bool {
    if o.reduce_data {
        holds_plane(d)
    } else {
        fits(wanted, d)
    }
}

/// The part of a data set that a target covers, and the area of the part.
fn reduce<C: SliceArithmetic>(
    dataset: &Dataset,
    source: &AreaDefinition,
    target: &AreaDefinition,
    shape_divisible_by: Option<usize>,
    cuts: &C,
) -> (r: Result<(Dataset, AreaDefinition)>)
    requires
        holds_plane(dataset@),
        slices_all(*cuts),
    ensures
        is_part(r, dataset@, source@, target@, shape_divisible_by, *cuts),
        r is Ok ==> holds_plane(r->Ok_0.0@),
{
    reduce_area_dataset_with_divisibility(
        dataset,
        source,
        target,
        shape_divisible_by,
        cuts.read(),
        cuts.pixel_size(),
        cuts.column(),
        cuts.row(),
        cuts.excess(),
        cuts.offset(),
        cuts.offset_down(),
    )
}

/// The part of a data set that the destination covers, resampled. `arithmetic` gives the
/// functions of numbers for a resampler and a destination, `cuts` are those for parts of
/// areas.
pub fn resample_area_dataset_reduced<
    K: ResampleArithmetic,
    F: Fn(&PreparedResampler, &AreaDefinition) -> K,
    C: SliceArithmetic,
>(
    dataset: &Dataset,
    source: AreaDefinition,
    destination: &AreaDefinition,
    options: ResampleOptions,
    arithmetic: &F,
    cuts: &C,
) -> (r: Result<Dataset>)
    requires
        holds_plane(dataset@),
        gives_functions(*arithmetic),
        slices_all(*cuts),
    ensures
        reduced_outcome(r, dataset@, source@, destination, options@, *arithmetic, *cuts),
{
    let part = reduce(dataset, &source, destination, options.shape_divisible_by, cuts);
    assert(is_part(
        part,
        dataset@,
        source@,
        destination@,
        options@.shape_divisible_by,
        *cuts,
    ));
    match part {
        Ok((reduced, area)) => match prepare_resampler(area, destination, options) {
            Ok(resampler) => resampler.resample_owned(reduced, destination, arithmetic),
            Err(e) => Err(e),
        },
        Err(e) => Err(e),
    }
}

/// As `resample_area_dataset_reduced`, with a resampler from the cache.
pub fn resample_area_dataset_reduced_cached<
    K: ResampleArithmetic,
    F: Fn(&PreparedResampler, &AreaDefinition) -> K,
    C: SliceArithmetic,
>(
    cache: &mut ResamplerCache,
    dataset: &Dataset,
    source: AreaDefinition,
    destination: &AreaDefinition,
    options: ResampleOptions,
    arithmetic: &F,
    cuts: &C,
) -> (r: Result<Dataset>)
    requires
        holds_plane(dataset@),
        gives_functions(*arithmetic),
        slices_all(*cuts),
    ensures
        reduced_outcome_cached(
            r,
            old(cache)@,
            final(cache)@,
            dataset@,
            source@,
            destination,
            options@,
            *arithmetic,
            *cuts,
        ),
{
    let part = reduce(dataset, &source, destination, options.shape_divisible_by, cuts);
    assert(is_part(
        part,
        dataset@,
        source@,
        destination@,
        options@.shape_divisible_by,
        *cuts,
    ));
    match part {
        Ok((reduced, area)) => match cache.prepare(area, destination, options) {
            Ok(resampler) => resampler.resample_owned(reduced, destination, arithmetic),
            Err(e) => Err(e),
        },
        Err(e) => Err(e),
    }
}

/// As `resample_area_dataset_reduced`, for a data set that is given away.
pub fn resample_area_dataset_reduced_owned<
    K: ResampleArithmetic,
    F: Fn(&PreparedResampler, &AreaDefinition) -> K,
    C: SliceArithmetic,
>(
    dataset: Dataset,
    source: AreaDefinition,
    destination: &AreaDefinition,
    options: ResampleOptions,
    arithmetic: &F,
    cuts: &C,
) -> (r: Result<Dataset>)
    requires
        holds_plane(dataset@),
        gives_functions(*arithmetic),
        slices_all(*cuts),
    ensures
        reduced_outcome(r, dataset@, source@, destination, options@, *arithmetic, *cuts),
{
    let part = reduce(&dataset, &source, destination, options.shape_divisible_by, cuts);
    assert(is_part(
        part,
        dataset@,
        source@,
        destination@,
        options@.shape_divisible_by,
        *cuts,
    ));
    match part {
        Ok((reduced, area)) => match prepare_resampler(area, destination, options) {
            Ok(resampler) => resampler.resample_owned(reduced, destination, arithmetic),
            Err(e) => Err(e),
        },
        Err(e) => Err(e),
    }
}

/// As `resample_area_dataset_reduced_cached`, for a data set that is given away.
pub fn resample_area_dataset_reduced_owned_cached<
    K: ResampleArithmetic,
    F: Fn(&PreparedResampler, &AreaDefinition) -> K,
    C: SliceArithmetic,
>(
    cache: &mut ResamplerCache,
    dataset: Dataset,
    source: AreaDefinition,
    destination: &AreaDefinition,
    options: ResampleOptions,
    arithmetic: &F,
    cuts: &C,
) -> (r: Result<Dataset>)
    requires
        holds_plane(dataset@),
        gives_functions(*arithmetic),
        slices_all(*cuts),
    ensures
        reduced_outcome_cached(
            r,
            old(cache)@,
            final(cache)@,
            dataset@,
            source@,
            destination,
            options@,
            *arithmetic,
            *cuts,
        ),
{
    let part = reduce(&dataset, &source, destination, options.shape_divisible_by, cuts);
    assert(is_part(
        part,
        dataset@,
        source@,
        destination@,
        options@.shape_divisible_by,
        *cuts,
    ));
    match part {
        Ok((reduced, area)) => match cache.prepare(area, destination, options) {
            Ok(resampler) => resampler.resample_owned(reduced, destination, arithmetic),
            Err(e) => Err(e),
        },
        Err(e) => Err(e),
    }
}

/// A data set on the destination, reduced first where the options say so. `arithmetic` gives
/// the functions of numbers for a resampler and a destination, `cuts` are those for parts of
/// areas.
pub fn resample_dataset<
    K: ResampleArithmetic,
    F: Fn(&PreparedResampler, &AreaDefinition) -> K,
    C: SliceArithmetic,
>(
    dataset: &Dataset,
    source: AreaDefinition,
    destination: &AreaDefinition,
    options: ResampleOptions,
    arithmetic: &F,
    cuts: &C,
) -> (r: Result<Dataset>)
    requires
        area_fits(prepared(GeometryView::Area(source@), options@), dataset@, options@),
        gives_functions(*arithmetic),
        slices_all(*cuts),
    ensures
        area_outcome_of(
            r,
            dataset@,
            source@,
            destination,
            options@,
            false,
            *arithmetic,
            *cuts,
        ),
{
    if options.reduce_data {
        return resample_area_dataset_reduced(
            dataset,
            source,
            destination,
            options,
            arithmetic,
            cuts,
        );
    }
    match prepare_resampler(source, destination, options) {
        Ok(resampler) => resampler.resample(dataset, destination, arithmetic),
        Err(e) => Err(e),
    }
}

/// As `resample_dataset`, with a resampler from the cache.
pub fn resample_dataset_cached<
    K: ResampleArithmetic,
    F: Fn(&PreparedResampler, &AreaDefinition) -> K,
    C: SliceArithmetic,
>(
    cache: &mut ResamplerCache,
    dataset: &Dataset,
    source: AreaDefinition,
    destination: &AreaDefinition,
    options: ResampleOptions,
    arithmetic: &F,
    cuts: &C,
) -> (r: Result<Dataset>)
    requires
        area_fits(
            cached_or_prepared(
                old(cache)@,
                GeometryView::Area(source@),
                destination@,
                options@,
            ),
            dataset@,
            options@,
        ),
        gives_functions(*arithmetic),
        slices_all(*cuts),
    ensures
        area_outcome_cached(
            r,
            old(cache)@,
            final(cache)@,
            dataset@,
            source@,
            destination,
            options@,
            false,
            *arithmetic,
            *cuts,
        ),
{
    if options.reduce_data {
        return resample_area_dataset_reduced_cached(
            cache,
            dataset,
            source,
            destination,
            options,
            arithmetic,
            cuts,
        );
    }
    match cache.prepare(source, destination, options) {
        Ok(resampler) => resampler.resample(dataset, destination, arithmetic),
        Err(e) => Err(e),
    }
}

/// As `resample_dataset`, for a data set that is given away.
pub fn resample_dataset_owned<
    K: ResampleArithmetic,
    F: Fn(&PreparedResampler, &AreaDefinition) -> K,
    C: SliceArithmetic,
>(
    dataset: Dataset,
    source: AreaDefinition,
    destination: &AreaDefinition,
    options: ResampleOptions,
    arithmetic: &F,
    cuts: &C,
) -> (r: Result<Dataset>)
    requires
        area_fits(prepared(GeometryView::Area(source@), options@), dataset@, options@),
        gives_functions(*arithmetic),
        slices_all(*cuts),
    ensures
        area_outcome_of(
            r,
            dataset@,
            source@,
            destination,
            options@,
            true,
            *arithmetic,
            *cuts,
        ),
{
    if options.reduce_data {
        return resample_area_dataset_reduced_owned(
            dataset,
            source,
            destination,
            options,
            arithmetic,
            cuts,
        );
    }
    match prepare_resampler(source, destination, options) {
        Ok(resampler) => resampler.resample_owned(dataset, destination, arithmetic),
        Err(e) => Err(e),
    }
}

/// As `resample_dataset_cached`, for a data set that is given away.
pub fn resample_dataset_owned_cached<
    K: ResampleArithmetic,
    F: Fn(&PreparedResampler, &AreaDefinition) -> K,
    C: SliceArithmetic,
>(
    cache: &mut ResamplerCache,
    dataset: Dataset,
    source: AreaDefinition,
    destination: &AreaDefinition,
    options: ResampleOptions,
    arithmetic: &F,
    cuts: &C,
) -> (r: Result<Dataset>)
    requires
        area_fits(
            cached_or_prepared(
                old(cache)@,
                GeometryView::Area(source@),
                destination@,
                options@,
            ),
            dataset@,
            options@,
        ),
        gives_functions(*arithmetic),
        slices_all(*cuts),
    ensures
        area_outcome_cached(
            r,
            old(cache)@,
            final(cache)@,
            dataset@,
            source@,
            destination,
            options@,
            true,
            *arithmetic,
            *cuts,
        ),
{
    if options.reduce_data {
        return resample_area_dataset_reduced_owned_cached(
            cache,
            dataset,
            source,
            destination,
            options,
            arithmetic,
            cuts,
        );
    }
    match cache.prepare(source, destination, options) {
        Ok(resampler) => resampler.resample_owned(dataset, destination, arithmetic),
        Err(e) => Err(e),
    }
}

/// A data set with a geometry of any kind on the destination. `arithmetic` gives the
/// functions of numbers for a resampler and a destination.
pub fn resample_dataset_from_geometry<
    K: ResampleArithmetic,
    F: Fn(&PreparedResampler, &AreaDefinition) -> K,
>(
    dataset: &Dataset,
    source: SourceGeometry,
    destination: &AreaDefinition,
    options: ResampleOptions,
    arithmetic: &F,
) -> (r: Result<Dataset>)
    requires
        fits(prepared(source@, options@), dataset@),
        gives_functions(*arithmetic),
    ensures
        runs(
            r,
            prepared(source@, options@),
            dataset@,
            destination,
            false,
            *arithmetic,
        ),
{
    match prepare_resampler_for_geometry(source, destination, options) {
        Ok(resampler) => resampler.resample(dataset, destination, arithmetic),
        Err(e) => Err(e),
    }
}

/// As `resample_dataset_from_geometry`, with a resampler from the cache.
pub fn resample_dataset_from_geometry_cached<
    K: ResampleArithmetic,
    F: Fn(&PreparedResampler, &AreaDefinition) -> K,
>(
    cache: &mut ResamplerCache,
    dataset: &Dataset,
    source: SourceGeometry,
    destination: &AreaDefinition,
    options: ResampleOptions,
    arithmetic: &F,
) -> (r: Result<Dataset>)
    requires
        fits(cached_or_prepared(old(cache)@, source@, destination@, options@), dataset@),
        gives_functions(*arithmetic),
    ensures
        runs(
            r,
            cached_or_prepared(old(cache)@, source@, destination@, options@),
            dataset@,
            destination,
            false,
            *arithmetic,
        ),
        final(cache)@ == cache_after(old(cache)@, source@, destination@, options@),
{
    match cache.prepare_for_geometry(source, destination, options) {
        Ok(resampler) => resampler.resample(dataset, destination, arithmetic),
        Err(e) => Err(e),
    }
}

/// As `resample_dataset_from_geometry`, for a data set that is given away.
pub fn resample_dataset_owned_from_geometry<
    K: ResampleArithmetic,
    F: Fn(&PreparedResampler, &AreaDefinition) -> K,
>(
    dataset: Dataset,
    source: SourceGeometry,
    destination: &AreaDefinition,
    options: ResampleOptions,
    arithmetic: &F,
) -> (r: Result<Dataset>)
    requires
        fits(prepared(source@, options@), dataset@),
        gives_functions(*arithmetic),
    ensures
        runs(
            r,
            prepared(source@, options@),
            dataset@,
            destination,
            true,
            *arithmetic,
        ),
{
    match prepare_resampler_for_geometry(source, destination, options) {
        Ok(resampler) => resampler.resample_owned(dataset, destination, arithmetic),
        Err(e) => Err(e),
    }
}

/// As `resample_dataset_from_geometry_cached`, for a data set that is given away.
pub fn resample_dataset_owned_from_geometry_cached<
    K: ResampleArithmetic,
    F: Fn(&PreparedResampler, &AreaDefinition) -> K,
>(
    cache: &mut ResamplerCache,
    dataset: Dataset,
    source: SourceGeometry,
    destination: &AreaDefinition,
    options: ResampleOptions,
    arithmetic: &F,
) -> (r: Result<Dataset>)
    requires
        fits(cached_or_prepared(old(cache)@, source@, destination@, options@), dataset@),
        gives_functions(*arithmetic),
    ensures
        runs(
            r,
            cached_or_prepared(old(cache)@, source@, destination@, options@),
            dataset@,
            destination,
            true,
            *arithmetic,
        ),
        final(cache)@ == cache_after(old(cache)@, source@, destination@, options@),
{
    match cache.prepare_for_geometry(source, destination, options) {
        Ok(resampler) => resampler.resample_owned(dataset, destination, arithmetic),
        Err(e) => Err(e),
    }
}

/// It does not matter whether a data set with a plane of numbers is given away.
pub proof fn lemma_given_away<K: ResampleArithmetic>(
    out: Result<Dataset>,
    p: PreparedView,
    d: DatasetView,
    g: AreaGridView,
    k: K,
)
    requires
        grid_of(d) is Some,
    ensures
        prepared_outcome(out, p, d, g, true, k) == prepared_outcome(out, p, d, g, false, k),
{
}

/// The native method is prepared from the source alone: the radius, the fill value and
/// what becomes of missing values do not matter.
pub proof fn lemma_native_options(source: GeometryView, a: OptionsView, b: OptionsView)
    requires
        a.method is Native,
        b.method is Native,
    ensures
        prepared(source, a) == prepared(source, b),
{
}

/// The bilinear method does not use the radius.
pub proof fn lemma_bilinear_radius(source: GeometryView, o: OptionsView, radius: Option<F64>)
    requires
        o.method is Bilinear,
    ensures
        prepared(source, o) == prepared(source, (OptionsView { radius, ..o })),
{
}

/// Whether options can be met for a geometry: the nearest pixel needs a radius that is not below
/// zero, where one is given; bilinear and native resampling an area; buckets a swath, and
/// fractions categories too, finite or to be found; and ellipses a swath and a radius above zero.
pub open spec fn can_be_met(source: GeometryView, o: OptionsView) -> bool {
    match o.method {
        ResamplerMethod::NearestArea => !(o.radius is Some && !o.radius->Some_0.nan()
            && o.radius->Some_0.rank() < 0),
        ResamplerMethod::Bilinear | ResamplerMethod::Native => source is Area,
        ResamplerMethod::BucketAverage | ResamplerMethod::BucketSum
        | ResamplerMethod::BucketCount => source is Swath,
        ResamplerMethod::BucketFraction => source is Swath && (o.categories_auto || (
        o.categories.len() > 0 && forall|i: int|
            0 <= i < o.categories.len() ==> (#[trigger] o.categories[i]).finite())),
        ResamplerMethod::Ewa => source is Swath && o.radius is Some && o.radius->Some_0.finite()
            && o.radius->Some_0.rank() > 0,
    }
}

/// Whether a resampler works on a geometry as options say. A masked pixel is not a number where
/// the nearest pixel or bilinear resampling masks what is missing.
pub open spec fn obeys(p: PreparedView, source: GeometryView, o: OptionsView) -> bool {
    match p {
        PreparedView::NearestArea(n) => {
            &&& o.method is NearestArea
            &&& source == GeometryView::Area(n.source)
            &&& n.radius == o.radius
            &&& n.policy is Mask == o.mask_missing
            &&& o.mask_missing ==> n.fill_value.bits == NAN_BITS_64
            &&& !o.mask_missing ==> n.fill_value == o.fill_value
        },
        PreparedView::NearestSwath(n) => {
            &&& o.method is NearestArea
            &&& source == GeometryView::Swath(n.source)
            &&& n.radius == o.radius
            &&& n.policy is Mask == o.mask_missing
            &&& o.mask_missing ==> n.fill_value.bits == NAN_BITS_64
            &&& !o.mask_missing ==> n.fill_value == o.fill_value
        },
        PreparedView::Bilinear(b) => {
            &&& o.method is Bilinear
            &&& source == GeometryView::Area(b.source)
            &&& b.policy is Mask == o.mask_missing
            &&& o.mask_missing ==> b.fill_value.bits == NAN_BITS_64
            &&& !o.mask_missing ==> b.fill_value == o.fill_value
        },
        PreparedView::Native(a) => o.method is Native && source == GeometryView::Area(a),
        PreparedView::Bucket(b) => {
            &&& source == GeometryView::Swath(b.source)
            &&& o.method is BucketAverage <==> b.statistic is Average
            &&& o.method is BucketSum <==> b.statistic is Sum
            &&& o.method is BucketCount <==> b.statistic is Count
            &&& !(b.statistic is Count) ==> b.fill_value == o.fill_value && b.skipna == o.skipna
            &&& b.statistic is Count ==> b.fill_value.bits == NAN_BITS_64 && b.skipna
        },
        PreparedView::BucketFraction(f) => {
            &&& o.method is BucketFraction
            &&& source == GeometryView::Swath(f.source)
            &&& f.fill_value == o.fill_value
            &&& o.categories_auto <==> f.categories is None
            &&& !o.categories_auto ==> f.categories == Some(o.categories)
        },
        PreparedView::Ewa(e) => {
            &&& o.method is Ewa
            &&& source == GeometryView::Swath(e.source)
            &&& o.radius == Some(e.options.radius)
            &&& e.options.fill_value == o.fill_value
            &&& e.options.mask_missing == o.mask_missing
            &&& e.options.weight_min.bits == 0x3f84_7ae1_47ae_147b
            &&& e.options.weight_sum_min.bits == 0
        },
    }
}

/// A resampler is prepared exactly where the options can be met, and works as they say.
pub proof fn lemma_prepared_obeys(source: GeometryView, o: OptionsView)
    ensures
        prepared(source, o) is Ok <==> can_be_met(source, o),
        prepared(source, o) is Ok ==> obeys(prepared(source, o)->Ok_0, source, o),
{
}

/// The name under which a resampler signs its results.
pub open spec fn signature(p: PreparedView) -> Seq<char> {
    match p {
        PreparedView::NearestArea(_) => "nearest_area"@,
        PreparedView::NearestSwath(_) => "nearest_swath"@,
        PreparedView::Bilinear(_) => "bilinear"@,
        PreparedView::Native(_) => "native"@,
        PreparedView::Bucket(b) => bucket_name(b.statistic),
        PreparedView::BucketFraction(_) => "bucket_fraction"@,
        PreparedView::Ewa(_) => "ewa"@,
    }
}

/// Every resampler keeps the name of a data set and signs it with the area of the target and with
/// its own name.
pub proof fn lemma_resampled_is_signed<K: ResampleArithmetic>(
    out: Result<Dataset>,
    p: PreparedView,
    d: DatasetView,
    g: AreaGridView,
    given: bool,
    k: K,
)
    requires
        prepared_outcome(out, p, d, g, given, k),
        out is Ok,
    ensures
        out->Ok_0@.name == d.name,
        out->Ok_0@.metadata["area"@] == g.area.id,
        out->Ok_0@.metadata["resampler"@] == signature(p),
        out->Ok_0@.attrs["area"@] == MetadataTree::Text(g.area.id),
        out->Ok_0@.attrs["resampler"@] == MetadataTree::Text(signature(p)),
{
    reveal_strlit("area");
    reveal_strlit("resampler");
    assert("area"@.len() != "resampler"@.len());
    match p {
        PreparedView::Bucket(r) => {
            let _ = lemma_bucket_dataset(
                out,
                d,
                r,
                g,
                if given {
                    "bucket resampling requires an f64 dataset grid"@
                } else {
                    "bucket resampling requires f64 dataset grid values"@
                },
                k.cell_of(),
                k.mean_of(),
                k.total_of(),
            );
        },
        PreparedView::Ewa(r) => {
            let _ = lemma_ewa_dataset(
                out,
                d,
                r,
                g,
                if given {
                    "EWA resampling requires an f64 dataset grid"@
                } else {
                    "EWA resampling requires f64 dataset grid values"@
                },
                k.square_of(),
                k.bounds_of(),
                k.reach_of(),
                k.weight_of(),
                k.average_of(),
            );
        },
        _ => {},
    }
}

} // verus!
