//! What a resampler offers, and the resampling of many data sets.

use crate::area::AreaDefinition;
use crate::dataset::Dataset;
use crate::error::{is_unsupported, Result, RustySatError};
use crate::text::join2;
use vstd::prelude::*;

verus! {

/// A way to bring a data set onto another area. One that does not say how is refused.
pub trait Resampler {
    /// The name of the resampler.
    fn name(&self) -> &str;

    /// The data set on an area.
    fn resample(&self, dataset: &Dataset, destination: &AreaDefinition) -> (r: Result<Dataset>)
        default_ensures
            exists|n: &str| #[trigger]
                call_ensures(Self::name, (self,), n) && is_unsupported(r, n@ + " resampling"@),
    {
        let name = self.name();
        assert(call_ensures(Self::name, (self,), name));
        let text = join2(name, " resampling");
        Err(RustySatError::unsupported(text.as_str()))
    }

    /// A data set that is given away on an area.
    fn resample_owned(&self, dataset: Dataset, destination: &AreaDefinition) -> (r: Result<Dataset>)
        default_ensures
            call_ensures(Self::resample, (self, &dataset, destination), r),
    {
        self.resample(&dataset, destination)
    }
}

} // verus!
