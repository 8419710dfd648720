//! Resampling by dropping the pixels of a swath into the pixels of an area.

use crate::area::{AreaGrid, AreaGridView};
use crate::array::{
    array_ok, copy_values, has_value, lemma_plane_len, masked_in, valid_value, AnyArrayView,
    AnyDataArray, ArrayView, DataGrid,
};
use crate::assemble::{
    finish_plane_with, is_plane, keeps_swath_coordinates, lemma_swath_coordinates_kept, plane_with,
    PlaneNames,
};
use crate::dataset::{
    described, grid_of, is_on_area, lemma_resampled, resampled, with_text, Dataset, DatasetView,
};
use crate::error::{fails_with, is_invalid, ErrorView, Result, RustySatError};
use crate::metadata::{MetadataTree, MetadataValue};
use crate::nd_utils::lemma_pixel_inside;
use crate::nearest::{
    by_lonlat, grid_shape, lemma_by_lonlat, lonlat_error, plane_size, require_lonlat, shape_error,
    shape_text,
};
use crate::number::{F64, NAN_BITS_64};
use crate::rounding::{
    floor_place, lemma_floor_and_ceil, lemma_place_holds, place_of, reaches,
};
use crate::selection::{
    lemma_selects_next, lemma_selects_renamed, lemma_selects_same, selects,
};
use crate::swath::{SwathDefinition, SwathView};
use crate::widening::is_nearest;
use vstd::prelude::*;

verus! {

/// What is computed of the pixels in a bucket.
#[derive(Clone, Copy, Debug, PartialEq, Eq, Structural)]
pub enum BucketStatistic {
    Average,
    Sum,
    Count,
}

impl BucketStatistic {
    pub open spec fn label(self) -> Seq<char> {
        match self {
            BucketStatistic::Average => "bucket_avg"@,
            BucketStatistic::Sum => "bucket_sum"@,
            BucketStatistic::Count => "bucket_count"@,
        }
    }

    /// The name of the resampler with this statistic.
    pub fn resampler_name(self) -> (r: &'static str)
        ensures
            r@ == self.label(),
    {
        match self {
            BucketStatistic::Average => "bucket_avg",
            BucketStatistic::Sum => "bucket_sum",
            BucketStatistic::Count => "bucket_count",
        }
    }
}

/// The number of the bucket at a place, its column and its row, where it lies inside the
/// target.
pub open spec fn bucket_at(place: (F64, F64), height: usize, width: usize) -> Option<int> {
    match (floor_place(place.1, height), floor_place(place.0, width)) {
        (Some(y), Some(x)) => Some(y * width + x),
        _ => None,
    }
}

/// The number of a bucket, where there is one.
pub open spec fn number_of(bucket: Option<usize>) -> Option<int> {
    match bucket {
        Some(b) => Some(b as int),
        None => None,
    }
}

/// Whether `bucket` is the one of a position.
pub open spec fn is_bucket<L: Fn(F64, F64) -> (F64, F64)>(
    lon: F64,
    lat: F64,
    g: AreaGridView,
    locate: L,
    bucket: Option<usize>,
) -> bool {
    exists|place: (F64, F64)| #[trigger]
        locate.ensures((lon, lat), place) && number_of(bucket) == bucket_at(
            place,
            g.area.height,
            g.area.width,
        )
}

/// Whether `buckets` are those of the positions of a swath. `locate` gives the place of a
/// position among the pixels of the target: its column and its row, counted from the
/// upper left corner.
pub open spec fn are_buckets<L: Fn(F64, F64) -> (F64, F64)>(
    s: SwathView,
    g: AreaGridView,
    locate: L,
    buckets: Seq<Option<usize>>,
) -> bool {
    &&& buckets.len() == s.height * s.width
    &&& forall|i: int|
        0 <= i < buckets.len() ==> is_bucket(
            s.lons->Some_0[i],
            s.lats->Some_0[i],
            g,
            locate,
            #[trigger] buckets[i],
        )
}

/// How many of the first `n` positions fall into a bucket.
pub open spec fn hits(buckets: Seq<Option<usize>>, n: int, b: int) -> int
    decreases n,
{
    if n <= 0 {
        0
    } else {
        hits(buckets, n - 1, b) + if number_of(buckets[n - 1]) == Some(b) {
            1int
        } else {
            0
        }
    }
}

/// Whether a pixel does not count: it is masked, not finite, or the fill value.
pub open spec fn invalid_sample(a: ArrayView<F64>, i: int, fill: F64) -> bool {
    ||| masked_in(a.mask, i)
    ||| !a.values[i].finite()
    ||| fill.finite() && a.values[i].same_number(fill)
}

/// The values that count of the first `n` positions in a bucket, in their order.
pub open spec fn bucket_values(
    a: ArrayView<F64>,
    buckets: Seq<Option<usize>>,
    fill: F64,
    n: int,
    b: int,
) -> Seq<F64>
    decreases n,
{
    if n <= 0 {
        Seq::empty()
    } else {
        let before = bucket_values(a, buckets, fill, n - 1, b);
        if number_of(buckets[n - 1]) == Some(b) && !invalid_sample(a, n - 1, fill) {
            before.push(a.values[n - 1])
        } else {
            before
        }
    }
}

/// Whether one of the first `n` positions in a bucket does not count.
pub open spec fn bucket_spoilt(
    a: ArrayView<F64>,
    buckets: Seq<Option<usize>>,
    fill: F64,
    n: int,
    b: int,
) -> bool {
    exists|i: int|
        0 <= i < n && number_of(#[trigger] buckets[i]) == Some(b) && invalid_sample(a, i, fill)
}

/// Whether `f` makes `v` of a list of values.
pub open spec fn folds<F: Fn(Vec<F64>) -> F64>(f: F, list: Seq<F64>, v: F64) -> bool {
    exists|values: Vec<F64>| values@ == list && #[trigger] f.ensures((values,), v)
}

/// Whether `v` is the statistic of a bucket: `mean` of the values that count, `total` of
/// them, or the number of positions.
pub open spec fn is_statistic<
    M: Fn(Vec<F64>) -> F64,
    T: Fn(Vec<F64>) -> F64,
>(
    a: ArrayView<F64>,
    buckets: Seq<Option<usize>>,
    b: int,
    statistic: BucketStatistic,
    fill: F64,
    skipna: bool,
    mean: M,
    total: T,
    v: F64,
) -> bool {
    if statistic is Count {
        is_nearest(v, hits(buckets, buckets.len() as int, b) as int)
    } else {
        is_combined(a, buckets, b, statistic, fill, skipna, mean, total, v)
    }
}

/// Whether `values` are the statistics of all buckets.
pub open spec fn are_statistics<
    M: Fn(Vec<F64>) -> F64,
    T: Fn(Vec<F64>) -> F64,
>(
    a: ArrayView<F64>,
    buckets: Seq<Option<usize>>,
    g: AreaGridView,
    statistic: BucketStatistic,
    fill: F64,
    skipna: bool,
    mean: M,
    total: T,
    values: Seq<F64>,
) -> bool {
    &&& values.len() == g.area.height * g.area.width
    &&& forall|b: int|
        0 <= b < values.len() ==> is_statistic(
            a,
            buckets,
            b,
            statistic,
            fill,
            skipna,
            mean,
            total,
            #[trigger] values[b],
        )
}

/// The error with which a plane or a target is refused, if it is.
pub open spec fn bucket_error(
    a: ArrayView<F64>,
    source: SwathView,
    g: AreaGridView,
) -> Option<ErrorView> {
    match bucket_target_error(a, source, g) {
        Some(e) => Some(e),
        None => missing_lons(source),
    }
}

/// The error for a swath whose positions are not known, if they are not.
pub open spec fn missing_lons(source: SwathView) -> Option<ErrorView> {
    if source.lons is None {
        Some(ErrorView::InvalidInput("bucket resampling requires source lons"@))
    } else {
        None
    }
}

/// The error for the shape of a plane or the projection of a target, if there is one.
pub open spec fn bucket_target_error(
    a: ArrayView<F64>,
    source: SwathView,
    g: AreaGridView,
) -> Option<ErrorView> {
    if plane_size(a) != (source.height, source.width) {
        Some(
            ErrorView::InvalidInput(
                shape_text(
                    "dataset grid shape "@,
                    plane_size(a),
                    " does not match swath shape "@,
                    (source.height, source.width),
                ),
            ),
        )
    } else {
        lonlat_error(
            g.area.projection,
            "bucket resampling without lon/lat destination projection metadata"@,
            "bucket resampling to non-lon/lat destination area"@,
        )
    }
}

/// Refuses a plane that does not have the shape of its swath, and a target that is not
/// one by longitude and latitude.
pub fn validate_bucket(source_grid: &DataGrid, source: &SwathDefinition, destination: &AreaGrid) -> (r:
    Result<()>)
    requires
        is_plane(source_grid@),
    ensures
        match bucket_target_error(source_grid@, source@, destination@) {
            Some(e) => fails_with(r, e),
            None => r is Ok,
        },
{
    let shape = grid_shape(source_grid);
    let expected = source.shape();
    if shape.0 != expected.0 || shape.1 != expected.1 {
        return Err(
            shape_error("dataset grid shape ", shape, " does not match swath shape ", expected),
        );
    }
    require_lonlat(
        destination.area().projection(),
        "bucket resampling without lon/lat destination projection metadata",
        "bucket resampling to non-lon/lat destination area",
    )
}

/// Whether all buckets are among the first `size`.
pub open spec fn buckets_within(buckets: Seq<Option<usize>>, size: int) -> bool {
    forall|i: int|
        0 <= i < buckets.len() && (#[trigger] buckets[i]) is Some ==> buckets[i]->Some_0 < size
}

/// The buckets of the positions of a swath.
pub fn bucket_indices<L: Fn(F64, F64) -> (F64, F64)>(
    source: &SwathDefinition,
    destination: &AreaGrid,
    locate: &L,
) -> (r: Result<Vec<Option<usize>>>)
    requires
        forall|a: F64, b: F64| #[trigger] locate.requires((a, b)),
    ensures
        match missing_lons(source@) {
            Some(e) => fails_with(r, e),
            None => r is Ok && are_buckets(source@, destination@, *locate, r->Ok_0@)
                && buckets_within(
                r->Ok_0@,
                destination@.area.height * destination@.area.width,
            ),
        },
{
    proof {
        use_type_invariant(source);
        use_type_invariant(destination);
    }
    let lons = match source.lons() {
        Some(l) => l,
        None => {
            return Err(RustySatError::invalid_input("bucket resampling requires source lons"));
        },
    };
    let lats = match source.lats() {
        Some(l) => l,
        None => {
            return Err(RustySatError::invalid_input("bucket resampling requires source lats"));
        },
    };
    let (height, width) = destination.shape();
    let ghost g = destination@;
    let mut buckets: Vec<Option<usize>> = Vec::new();
    let mut i: usize = 0;
    while i < lons.len()
        invariant
            i <= lons@.len(),
            lons@.len() == lats@.len(),
            buckets@.len() == i,
            height == g.area.height,
            width == g.area.width,
            crate::area::area_grid_ok(g),
            forall|a: F64, b: F64| #[trigger] locate.requires((a, b)),
            forall|j: int|
                0 <= j < i ==> is_bucket(lons@[j], lats@[j], g, *locate, #[trigger] buckets@[j]),
            buckets_within(buckets@, g.area.height * g.area.width),
        decreases lons@.len() - i,
    {
        let lon = lons[i];
        let lat = lats[i];
        let place = locate(lon, lat);
        let bucket: Option<usize> = match (place_of(place.1, height), place_of(place.0, width)) {
            (Some(y), Some(x)) => {
                proof {
                    assert(0 <= y * width && y * width + x < height * width) by (nonlinear_arith)
                        requires
                            y < height,
                            x < width,
                    ;
                }
                Some(y * width + x)
            },
            _ => None,
        };
        assert(locate.ensures((lon, lat), place));
        assert(is_bucket(lon, lat, g, *locate, bucket));
        buckets.push(bucket);
        i = i + 1;
    }
    Ok(buckets)
}

/// A list of zeros.
pub fn zeros(size: usize) -> (r: Vec<usize>)
    ensures
        r@.len() == size,
        forall|b: int| 0 <= b < size ==> #[trigger] r@[b] == 0,
{
    let mut r: Vec<usize> = Vec::new();
    while r.len() < size
        invariant
            r@.len() <= size,
            forall|b: int| 0 <= b < r@.len() ==> #[trigger] r@[b] == 0,
        decreases size - r@.len(),
    {
        r.push(0);
    }
    r
}

/// How many positions fall into each bucket.
pub fn count_hits(buckets: &Vec<Option<usize>>, size: usize) -> (r: Vec<usize>)
    requires
        buckets_within(buckets@, size as int),
    ensures
        r@.len() == size,
        forall|b: int| 0 <= b < size ==> #[trigger] r@[b] == hits(buckets@, buckets@.len() as int, b),
{
    let mut r = zeros(size);
    let count: usize = buckets.len();
    let mut i: usize = 0;
    while i < count
        invariant
            i <= count,
            count == buckets@.len(),
            r@.len() == size,
            buckets_within(buckets@, size as int),
            forall|b: int| 0 <= b < size ==> #[trigger] r@[b] == hits(buckets@, i as int, b),
            forall|b: int| 0 <= b < size ==> #[trigger] r@[b] <= i,
        decreases count - i,
    {
        match buckets[i] {
            Some(b) => {
                assert(buckets@[i as int] is Some);
                assert(r@[b as int] <= i);
                let n: usize = r[b] + 1;
                r.set(b, n);
            },
            None => {},
        }
        i = i + 1;
    }
    r
}

/// The values that count in each bucket, and whether a position in it does not count.
fn gather_values(
    source_grid: &DataGrid,
    buckets: &Vec<Option<usize>>,
    size: usize,
    fill_value: F64,
) -> (r: (Vec<Vec<F64>>, Vec<bool>))
    requires
        buckets@.len() == source_grid@.values.len(),
        buckets_within(buckets@, size as int),
    ensures
        r.0@.len() == size,
        r.1@.len() == size,
        forall|b: int|
            0 <= b < size ==> (#[trigger] r.0@[b])@ == bucket_values(
                source_grid@,
                buckets@,
                fill_value,
                buckets@.len() as int,
                b,
            ),
        forall|b: int|
            0 <= b < size ==> #[trigger] r.1@[b] == bucket_spoilt(
                source_grid@,
                buckets@,
                fill_value,
                buckets@.len() as int,
                b,
            ),
{
    let ghost a = source_grid@;
    let mut lists: Vec<Vec<F64>> = Vec::new();
    let mut spoilt: Vec<bool> = Vec::new();
    let mut t: usize = 0;
    while t < size
        invariant
            t <= size,
            lists@.len() == t,
            spoilt@.len() == t,
            forall|b: int| 0 <= b < t ==> (#[trigger] lists@[b])@ == Seq::<F64>::empty(),
            forall|b: int| 0 <= b < t ==> !(#[trigger] spoilt@[b]),
        decreases size - t,
    {
        lists.push(Vec::new());
        spoilt.push(false);
        t = t + 1;
    }
    let count: usize = buckets.len();
    let mut i: usize = 0;
    while i < count
        invariant
            i <= count,
            count == buckets@.len(),
            count == a.values.len(),
            a == source_grid@,
            lists@.len() == size,
            spoilt@.len() == size,
            buckets_within(buckets@, size as int),
            forall|b: int|
                0 <= b < size ==> (#[trigger] lists@[b])@ == bucket_values(
                    a,
                    buckets@,
                    fill_value,
                    i as int,
                    b,
                ),
            forall|b: int|
                0 <= b < size ==> #[trigger] spoilt@[b] == bucket_spoilt(
                    a,
                    buckets@,
                    fill_value,
                    i as int,
                    b,
                ),
        decreases count - i,
    {
        let ghost lists_before = lists@;
        let ghost spoilt_before = spoilt@;
        match buckets[i] {
            Some(t) => {
                assert(buckets@[i as int] is Some);
                if is_invalid_sample(source_grid, i, fill_value) {
                    spoilt.set(t, true);
                } else {
                    let value = source_grid.values()[i];
                    lists[t].push(value);
                }
            },
            None => {},
        }
        proof {
            assert forall|b: int| 0 <= b < size implies (#[trigger] lists@[b])@ == bucket_values(
                a,
                buckets@,
                fill_value,
                i + 1,
                b,
            ) by {
                assert(lists_before[b]@ == bucket_values(a, buckets@, fill_value, i as int, b));
            }
            assert forall|b: int| 0 <= b < size implies #[trigger] spoilt@[b] == bucket_spoilt(
                a,
                buckets@,
                fill_value,
                i + 1,
                b,
            ) by {
                assert(spoilt_before[b] == bucket_spoilt(a, buckets@, fill_value, i as int, b));
                assert(number_of(buckets@[i as int]) == number_of(buckets@[i as int]));
                if bucket_spoilt(a, buckets@, fill_value, i as int, b) {
                    let j = choose|j: int|
                        0 <= j < i && number_of(#[trigger] buckets@[j]) == Some(b)
                            && invalid_sample(a, j, fill_value);
                    assert(number_of(buckets@[j]) == Some(b));
                }
                if bucket_spoilt(a, buckets@, fill_value, i + 1, b) {
                    let j = choose|j: int|
                        0 <= j < i + 1 && number_of(#[trigger] buckets@[j]) == Some(b)
                            && invalid_sample(a, j, fill_value);
                    assert(number_of(buckets@[j]) == Some(b));
                }
            }
        }
        i = i + 1;
    }
    (lists, spoilt)
}

/// Whether a pixel does not count.
fn is_invalid_sample(source_grid: &DataGrid, index: usize, fill_value: F64) -> (r: bool)
    requires
        index < source_grid@.values.len(),
    ensures
        r == invalid_sample(source_grid@, index as int, fill_value),
{
    match valid_value(source_grid, index) {
        Some(value) => fill_value.is_finite() && value.equals(fill_value),
        None => true,
    }
}

/// Whether `r` is the plane of the statistics, or the first obstacle.
pub open spec fn bucket_outcome<
    L: Fn(F64, F64) -> (F64, F64),
    M: Fn(Vec<F64>) -> F64,
    T: Fn(Vec<F64>) -> F64,
>(
    r: Result<DataGrid>,
    a: ArrayView<F64>,
    source: SwathView,
    g: AreaGridView,
    statistic: BucketStatistic,
    fill: F64,
    skipna: bool,
    locate: L,
    mean: M,
    total: T,
) -> bool {
    match bucket_error(a, source, g) {
        Some(e) => fails_with(r, e),
        None => exists|buckets: Seq<Option<usize>>, values: Seq<F64>|
            #![trigger
                are_buckets(source, g, locate, buckets),
                are_statistics(a, buckets, g, statistic, fill, skipna, mean, total, values)]
            are_buckets(source, g, locate, buckets) && are_statistics(
                a,
                buckets,
                g,
                statistic,
                fill,
                skipna,
                mean,
                total,
                values,
            ) && r is Ok && r->Ok_0@ == plane_with(PlaneNames::Swath, Some(a), g, values, None),
    }
}

/// The plane of a statistic of the positions in each bucket. `locate` gives the column
/// and the row of a position; `mean` and `total` are those of a list of values.
pub fn resample_bucket_with_statistic<
    L: Fn(F64, F64) -> (F64, F64),
    M: Fn(Vec<F64>) -> F64,
    T: Fn(Vec<F64>) -> F64,
>(
    source_grid: &DataGrid,
    source: &SwathDefinition,
    destination: &AreaGrid,
    statistic: BucketStatistic,
    fill_value: F64,
    skipna: bool,
    locate: &L,
    mean: &M,
    total: &T,
) -> (r: Result<DataGrid>)
    requires
        is_plane(source_grid@),
        forall|a: F64, b: F64| #[trigger] locate.requires((a, b)),
        forall|v: Vec<F64>| #[trigger] mean.requires((v,)),
        forall|v: Vec<F64>| #[trigger] total.requires((v,)),
    ensures
        bucket_outcome(
            r,
            source_grid@,
            source@,
            destination@,
            statistic,
            fill_value,
            skipna,
            *locate,
            *mean,
            *total,
        ),
{
    proof {
        use_type_invariant(source_grid);
        use_type_invariant(destination);
    }
    match validate_bucket(source_grid, source, destination) {
        Ok(()) => {},
        Err(e) => {
            return Err(e);
        },
    }
    let buckets = match bucket_indices(source, destination, locate) {
        Ok(b) => b,
        Err(e) => {
            return Err(e);
        },
    };
    let _shape = grid_shape(source_grid);
    let (height, width) = destination.shape();
    let size: usize = height * width;
    let values = match statistic {
        BucketStatistic::Count => counted(&buckets, size),
        _ => combined(source_grid, &buckets, size, statistic, fill_value, skipna, mean, total),
    };
    assert(are_buckets(source@, destination@, *locate, buckets@));
    assert(are_statistics(
        source_grid@,
        buckets@,
        destination@,
        statistic,
        fill_value,
        skipna,
        *mean,
        *total,
        values@,
    ));
    finish_plane_with(PlaneNames::Swath, Some(source_grid), destination, values, None)
}

/// The numbers of positions in the buckets.
fn counted(buckets: &Vec<Option<usize>>, size: usize) -> (r: Vec<F64>)
    requires
        buckets_within(buckets@, size as int),
    ensures
        r@.len() == size,
        forall|b: int|
            0 <= b < size ==> is_nearest(
                #[trigger] r@[b],
                hits(buckets@, buckets@.len() as int, b) as int,
            ),
{
    let counted = count_hits(buckets, size);
    let mut r: Vec<F64> = Vec::new();
    let mut t: usize = 0;
    while t < size
        invariant
            t <= size,
            counted@.len() == size,
            r@.len() == t,
            forall|b: int|
                0 <= b < size ==> #[trigger] counted@[b] == hits(
                    buckets@,
                    buckets@.len() as int,
                    b,
                ),
            forall|b: int|
                0 <= b < t ==> is_nearest(
                    #[trigger] r@[b],
                    hits(buckets@, buckets@.len() as int, b) as int,
                ),
        decreases size - t,
    {
        r.push(F64::from_u64(counted[t] as u64));
        t = t + 1;
    }
    r
}

/// The means or the sums of the values in the buckets.
fn combined<M: Fn(Vec<F64>) -> F64, T: Fn(Vec<F64>) -> F64>(
    source_grid: &DataGrid,
    buckets: &Vec<Option<usize>>,
    size: usize,
    statistic: BucketStatistic,
    fill_value: F64,
    skipna: bool,
    mean: &M,
    total: &T,
) -> (r: Vec<F64>)
    requires
        statistic !is Count,
        buckets@.len() == source_grid@.values.len(),
        buckets_within(buckets@, size as int),
        forall|v: Vec<F64>| #[trigger] mean.requires((v,)),
        forall|v: Vec<F64>| #[trigger] total.requires((v,)),
    ensures
        r@.len() == size,
        forall|b: int|
            0 <= b < size ==> is_combined(
                source_grid@,
                buckets@,
                b,
                statistic,
                fill_value,
                skipna,
                *mean,
                *total,
                #[trigger] r@[b],
            ),
{
    let (lists, spoilt) = gather_values(source_grid, buckets, size, fill_value);
    let ghost n = buckets@.len() as int;
    let mut r: Vec<F64> = Vec::new();
    let mut t: usize = 0;
    while t < size
        invariant
            t <= size,
            statistic !is Count,
            n == buckets@.len(),
            lists@.len() == size,
            spoilt@.len() == size,
            r@.len() == t,
            forall|v: Vec<F64>| #[trigger] mean.requires((v,)),
            forall|v: Vec<F64>| #[trigger] total.requires((v,)),
            forall|b: int|
                0 <= b < size ==> (#[trigger] lists@[b])@ == bucket_values(
                    source_grid@,
                    buckets@,
                    fill_value,
                    n,
                    b,
                ),
            forall|b: int|
                0 <= b < size ==> #[trigger] spoilt@[b] == bucket_spoilt(
                    source_grid@,
                    buckets@,
                    fill_value,
                    n,
                    b,
                ),
            forall|b: int|
                0 <= b < t ==> is_combined(
                    source_grid@,
                    buckets@,
                    b,
                    statistic,
                    fill_value,
                    skipna,
                    *mean,
                    *total,
                    #[trigger] r@[b],
                ),
        decreases size - t,
    {
        let list = copy_values(&lists[t]);
        let ghost values = list;
        let empty = list.len() == 0;
        let refused = spoilt[t] && !skipna;
        let v: F64 = match statistic {
            BucketStatistic::Average => if empty || refused {
                fill_value
            } else {
                let v = mean(list);
                assert(folds(*mean, values@, v)) by {
                    assert(mean.ensures((values,), v));
                }
                v
            },
            _ => if refused {
                fill_value
            } else if empty {
                F64 { bits: 0 }
            } else {
                let v = total(list);
                assert(folds(*total, values@, v)) by {
                    assert(total.ensures((values,), v));
                }
                v
            },
        };
        r.push(v);
        t = t + 1;
    }
    r
}

/// Whether `v` is the mean or the sum of the values of a bucket.
pub open spec fn is_combined<M: Fn(Vec<F64>) -> F64, T: Fn(Vec<F64>) -> F64>(
    a: ArrayView<F64>,
    buckets: Seq<Option<usize>>,
    b: int,
    statistic: BucketStatistic,
    fill: F64,
    skipna: bool,
    mean: M,
    total: T,
    v: F64,
) -> bool {
    let n = buckets.len() as int;
    let list = bucket_values(a, buckets, fill, n, b);
    let spoilt = bucket_spoilt(a, buckets, fill, n, b);
    if statistic is Average {
        if list.len() == 0 || (!skipna && spoilt) {
            v == fill
        } else {
            folds(mean, list, v)
        }
    } else {
        if spoilt && !skipna {
            v == fill
        } else if list.len() == 0 {
            v == (F64 { bits: 0 })
        } else {
            folds(total, list, v)
        }
    }
}

/// The plane of the mean of the values in each bucket.
pub fn resample_bucket_average<
    L: Fn(F64, F64) -> (F64, F64),
    M: Fn(Vec<F64>) -> F64,
    T: Fn(Vec<F64>) -> F64,
>(
    source_grid: &DataGrid,
    source: &SwathDefinition,
    destination: &AreaGrid,
    fill_value: F64,
    skipna: bool,
    locate: &L,
    mean: &M,
    total: &T,
) -> (r: Result<DataGrid>)
    requires
        is_plane(source_grid@),
        forall|a: F64, b: F64| #[trigger] locate.requires((a, b)),
        forall|v: Vec<F64>| #[trigger] mean.requires((v,)),
        forall|v: Vec<F64>| #[trigger] total.requires((v,)),
    ensures
        bucket_outcome(
            r,
            source_grid@,
            source@,
            destination@,
            BucketStatistic::Average,
            fill_value,
            skipna,
            *locate,
            *mean,
            *total,
        ),
{
    resample_bucket_with_statistic(
        source_grid,
        source,
        destination,
        BucketStatistic::Average,
        fill_value,
        skipna,
        locate,
        mean,
        total,
    )
}

/// The plane of the sum of the values in each bucket.
pub fn resample_bucket_sum<
    L: Fn(F64, F64) -> (F64, F64),
    M: Fn(Vec<F64>) -> F64,
    T: Fn(Vec<F64>) -> F64,
>(
    source_grid: &DataGrid,
    source: &SwathDefinition,
    destination: &AreaGrid,
    fill_value: F64,
    skipna: bool,
    locate: &L,
    mean: &M,
    total: &T,
) -> (r: Result<DataGrid>)
    requires
        is_plane(source_grid@),
        forall|a: F64, b: F64| #[trigger] locate.requires((a, b)),
        forall|v: Vec<F64>| #[trigger] mean.requires((v,)),
        forall|v: Vec<F64>| #[trigger] total.requires((v,)),
    ensures
        bucket_outcome(
            r,
            source_grid@,
            source@,
            destination@,
            BucketStatistic::Sum,
            fill_value,
            skipna,
            *locate,
            *mean,
            *total,
        ),
{
    resample_bucket_with_statistic(
        source_grid,
        source,
        destination,
        BucketStatistic::Sum,
        fill_value,
        skipna,
        locate,
        mean,
        total,
    )
}

/// The plane of the number of positions in each bucket.
pub fn resample_bucket_count<
    L: Fn(F64, F64) -> (F64, F64),
    M: Fn(Vec<F64>) -> F64,
    T: Fn(Vec<F64>) -> F64,
>(
    source_grid: &DataGrid,
    source: &SwathDefinition,
    destination: &AreaGrid,
    locate: &L,
    mean: &M,
    total: &T,
) -> (r: Result<DataGrid>)
    requires
        is_plane(source_grid@),
        forall|a: F64, b: F64| #[trigger] locate.requires((a, b)),
        forall|v: Vec<F64>| #[trigger] mean.requires((v,)),
        forall|v: Vec<F64>| #[trigger] total.requires((v,)),
    ensures
        bucket_outcome(
            r,
            source_grid@,
            source@,
            destination@,
            BucketStatistic::Count,
            F64 { bits: NAN_BITS_64 },
            true,
            *locate,
            *mean,
            *total,
        ),
{
    resample_bucket_with_statistic(
        source_grid,
        source,
        destination,
        BucketStatistic::Count,
        F64 { bits: NAN_BITS_64 },
        true,
        locate,
        mean,
        total,
    )
}

/// How many of the first `n` positions fall into a bucket at all.
pub open spec fn located(buckets: Seq<Option<usize>>, n: int) -> int
    decreases n,
{
    if n <= 0 {
        0
    } else {
        located(buckets, n - 1) + if buckets[n - 1] is Some {
            1int
        } else {
            0
        }
    }
}

/// The sum of the numbers of positions in the first `size` buckets.
pub open spec fn sum_of_hits(buckets: Seq<Option<usize>>, n: int, size: int) -> int
    decreases size,
{
    if size <= 0 {
        0
    } else {
        sum_of_hits(buckets, n, size - 1) + hits(buckets, n, size - 1)
    }
}

proof fn lemma_hit_adds_one(buckets: Seq<Option<usize>>, n: int, size: int)
    requires
        0 < n <= buckets.len(),
        size >= 0,
    ensures
        sum_of_hits(buckets, n, size) == sum_of_hits(buckets, n - 1, size) + if buckets[n
            - 1] is Some && buckets[n - 1]->Some_0 < size {
            1int
        } else {
            0
        },
    decreases size,
{
    if size > 0 {
        lemma_hit_adds_one(buckets, n, size - 1);
    }
}

proof fn lemma_no_hits(buckets: Seq<Option<usize>>, size: int)
    ensures
        sum_of_hits(buckets, 0, size) == 0,
    decreases size,
{
    if size > 0 {
        lemma_no_hits(buckets, size - 1);
    }
}

/// Whether a position has one place.
pub open spec fn one_place<L: Fn(F64, F64) -> (F64, F64)>(locate: L) -> bool {
    forall|x: F64, y: F64, p: (F64, F64), q: (F64, F64)|
        #![trigger locate.ensures((x, y), p), locate.ensures((x, y), q)]
        locate.ensures((x, y), p) && locate.ensures((x, y), q) ==> p == q
}

/// Where a position has one place, a swath has one list of buckets.
pub proof fn lemma_same_buckets<L: Fn(F64, F64) -> (F64, F64)>(
    s: SwathView,
    g: AreaGridView,
    locate: L,
    a: Seq<Option<usize>>,
    b: Seq<Option<usize>>,
)
    requires
        one_place(locate),
        are_buckets(s, g, locate, a),
        are_buckets(s, g, locate, b),
    ensures
        a == b,
{
    assert forall|i: int| 0 <= i < a.len() implies a[i] == b[i] by {
        assert(is_bucket(s.lons->Some_0[i], s.lats->Some_0[i], g, locate, a[i]));
        assert(is_bucket(s.lons->Some_0[i], s.lats->Some_0[i], g, locate, b[i]));
    }
    assert(a =~= b);
}

/// The bits of the number one.
pub const ONE_BITS: u64 = 0x3ff0_0000_0000_0000;

/// A list of ones.
pub open spec fn ones(n: nat) -> Seq<F64> {
    Seq::new(n, |i: int| F64 { bits: ONE_BITS })
}

/// In a plane of ones the values in a bucket are as many ones as there are positions.
proof fn lemma_values_are_ones(
    a: ArrayView<F64>,
    buckets: Seq<Option<usize>>,
    fill: F64,
    n: int,
    b: int,
)
    requires
        a.mask is None,
        forall|i: int| 0 <= i < a.values.len() ==> #[trigger] a.values[i] == (F64 { bits: ONE_BITS }),
        0 <= n <= a.values.len(),
        !fill.same_number(F64 { bits: ONE_BITS }),
    ensures
        0 <= hits(buckets, n, b) <= n,
        bucket_values(a, buckets, fill, n, b) == ones(hits(buckets, n, b) as nat),
    decreases n,
{
    if n > 0 {
        lemma_values_are_ones(a, buckets, fill, n - 1, b);
        assert(a.values[n - 1] == (F64 { bits: ONE_BITS }));
        assert(!invalid_sample(a, n - 1, fill));
    }
    assert(bucket_values(a, buckets, fill, n, b) =~= ones(hits(buckets, n, b) as nat));
}

/// A position that has a bucket has one of the target.
proof fn lemma_buckets_within<L: Fn(F64, F64) -> (F64, F64)>(
    source: SwathView,
    g: AreaGridView,
    locate: L,
    buckets: Seq<Option<usize>>,
)
    requires
        are_buckets(source, g, locate, buckets),
    ensures
        buckets_within(buckets, g.area.height * g.area.width),
{
    let height = g.area.height;
    let width = g.area.width;
    assert forall|i: int| 0 <= i < buckets.len() && (#[trigger] buckets[i]) is Some implies buckets[i]->Some_0
        < height * width by {
        let lon = source.lons->Some_0[i];
        let lat = source.lats->Some_0[i];
        assert(is_bucket(lon, lat, g, locate, buckets[i]));
        let place = choose|place: (F64, F64)| #[trigger]
            locate.ensures((lon, lat), place) && number_of(buckets[i]) == bucket_at(
                place,
                height,
                width,
            );
        let y = floor_place(place.1, height)->Some_0;
        let x = floor_place(place.0, width)->Some_0;
        assert(y * width + x < height * width) by (nonlinear_arith)
            requires
                0 <= y < height,
                0 <= x < width,
        ;
    }
}

/// Whether `counts` are the numbers of positions in the buckets, which add up to the number of
/// positions inside the target, and both `sums` and `counts` have zero where there is none.
pub open spec fn counts_positions(
    buckets: Seq<Option<usize>>,
    sums: Seq<F64>,
    counts: Seq<F64>,
) -> bool {
    let n = buckets.len() as int;
    &&& forall|b: int| 0 <= b < counts.len() ==> is_nearest(#[trigger] counts[b], hits(buckets, n, b))
    &&& forall|b: int|
        0 <= b < counts.len() && #[trigger] hits(buckets, n, b) == 0 ==> sums[b].bits == 0
            && counts[b].bits == 0
    &&& sum_of_hits(buckets, n, counts.len() as int) == located(buckets, n)
}

/// The sum of ones is their number: where `total` gives the number of ones in a list of as
/// many as there are positions or fewer, and a position has one place, the sums of a plane of
/// ones are the counts. An empty bucket has zero in both, never the fill value, and the
/// numbers of positions add up to the number of positions inside the target.
pub proof fn lemma_sum_of_ones<
    L: Fn(F64, F64) -> (F64, F64),
    M: Fn(Vec<F64>) -> F64,
    T: Fn(Vec<F64>) -> F64,
>(
    sum: Result<DataGrid>,
    count: Result<DataGrid>,
    a: ArrayView<F64>,
    source: SwathView,
    g: AreaGridView,
    fill: F64,
    count_fill: F64,
    skipna: bool,
    count_skipna: bool,
    locate: L,
    mean: M,
    total: T,
)
    requires
        one_place(locate),
        forall|n: nat, v: F64, c: F64|
            0 < n <= a.values.len() && #[trigger] folds(total, ones(n), v) && #[trigger] is_nearest(c, n as int)
                ==> v.same_number(c),
        a.values.len() == source.height * source.width,
        a.mask is None,
        forall|i: int| 0 <= i < a.values.len() ==> #[trigger] a.values[i] == (F64 { bits: ONE_BITS }),
        !fill.same_number(F64 { bits: ONE_BITS }),
        bucket_outcome(
            sum,
            a,
            source,
            g,
            BucketStatistic::Sum,
            fill,
            skipna,
            locate,
            mean,
            total,
        ),
        bucket_outcome(
            count,
            a,
            source,
            g,
            BucketStatistic::Count,
            count_fill,
            count_skipna,
            locate,
            mean,
            total,
        ),
        count is Ok,
    ensures
        sum is Ok,
        sum->Ok_0@.values.len() == count->Ok_0@.values.len(),
        forall|b: int|
            0 <= b < sum->Ok_0@.values.len() ==> (#[trigger] sum->Ok_0@.values[b]).same_number(
                count->Ok_0@.values[b],
            ),
        exists|buckets: Seq<Option<usize>>| #[trigger]
            are_buckets(source, g, locate, buckets) && counts_positions(
                buckets,
                sum->Ok_0@.values,
                count->Ok_0@.values,
            ),
{
    let (k1, v1) = choose|buckets: Seq<Option<usize>>, values: Seq<F64>|
        #![trigger
            are_buckets(source, g, locate, buckets),
            are_statistics(a, buckets, g, BucketStatistic::Sum, fill, skipna, mean, total, values)]
        are_buckets(source, g, locate, buckets) && are_statistics(
            a,
            buckets,
            g,
            BucketStatistic::Sum,
            fill,
            skipna,
            mean,
            total,
            values,
        ) && sum is Ok && sum->Ok_0@ == plane_with(PlaneNames::Swath, Some(a), g, values, None);
    let (k2, v2) = choose|buckets: Seq<Option<usize>>, values: Seq<F64>|
        #![trigger
            are_buckets(source, g, locate, buckets),
            are_statistics(a, buckets, g, BucketStatistic::Count, count_fill, count_skipna, mean, total, values)]
        are_buckets(source, g, locate, buckets) && are_statistics(
            a,
            buckets,
            g,
            BucketStatistic::Count,
            count_fill,
            count_skipna,
            mean,
            total,
            values,
        ) && count is Ok && count->Ok_0@ == plane_with(
            PlaneNames::Swath,
            Some(a),
            g,
            values,
            None,
        );
    lemma_same_buckets(source, g, locate, k1, k2);
    let n = k1.len() as int;
    assert forall|b: int| 0 <= b < v1.len() implies (#[trigger] v1[b]).same_number(v2[b]) by {
        lemma_values_are_ones(a, k1, fill, n, b);
        assert(is_statistic(a, k1, b, BucketStatistic::Sum, fill, skipna, mean, total, v1[b]));
        assert(is_statistic(
            a,
            k2,
            b,
            BucketStatistic::Count,
            count_fill,
            count_skipna,
            mean,
            total,
            v2[b],
        ));
        assert(!bucket_spoilt(a, k1, fill, n, b)) by {
            assert forall|i: int| 0 <= i < n implies !invalid_sample(a, i, fill) by {
                assert(a.values[i] == (F64 { bits: ONE_BITS }));
            }
        }
        let h = hits(k1, n, b) as nat;
        if h > 0 {
            assert(folds(total, ones(h), v1[b]));
            assert(is_nearest(v2[b], h as int));
        }
    }
    assert forall|b: int| 0 <= b < v2.len() implies is_nearest(#[trigger] v2[b], hits(k1, n, b)) by {
        assert(is_statistic(
            a,
            k2,
            b,
            BucketStatistic::Count,
            count_fill,
            count_skipna,
            mean,
            total,
            v2[b],
        ));
    }
    assert forall|b: int| 0 <= b < v2.len() && #[trigger] hits(k1, n, b) == 0 implies v1[b].bits == 0
        && v2[b].bits == 0 by {
        lemma_values_are_ones(a, k1, fill, n, b);
        assert(is_statistic(a, k1, b, BucketStatistic::Sum, fill, skipna, mean, total, v1[b]));
        assert(is_nearest(v2[b], hits(k1, n, b)));
        assert(!bucket_spoilt(a, k1, fill, n, b)) by {
            assert forall|i: int| 0 <= i < n implies !invalid_sample(a, i, fill) by {
                assert(a.values[i] == (F64 { bits: ONE_BITS }));
            }
        }
    }
    lemma_buckets_within(source, g, locate, k1);
    lemma_hits_add_up(k1, n, v2.len() as int);
    assert(counts_positions(k1, v1, v2));
}

/// Every position inside the target is in one bucket and in no other: the numbers of
/// positions in the buckets add up to the number of positions inside.
pub proof fn lemma_hits_add_up(buckets: Seq<Option<usize>>, n: int, size: int)
    requires
        buckets_within(buckets, size),
        0 <= n <= buckets.len(),
        size >= 0,
    ensures
        sum_of_hits(buckets, n, size) == located(buckets, n),
    decreases n,
{
    if n == 0 {
        lemma_no_hits(buckets, size);
    } else {
        lemma_hits_add_up(buckets, n - 1, size);
        lemma_hit_adds_one(buckets, n, size);
        assert(buckets[n - 1] is Some ==> buckets[n - 1]->Some_0 < size);
    }
}

/// A resampler by buckets, as a mathematical value.
#[verifier::ext_equal]
pub struct BucketResamplerView {
    pub source: SwathView,
    pub statistic: BucketStatistic,
    pub fill_value: F64,
    pub skipna: bool,
}

/// A resampler by buckets.
#[derive(Debug)]
pub struct BucketResampler {
    source: SwathDefinition,
    statistic: BucketStatistic,
    fill_value: F64,
    skipna: bool,
}

impl View for BucketResampler {
    type V = BucketResamplerView;

    closed spec fn view(&self) -> BucketResamplerView {
        BucketResamplerView {
            source: self.source@,
            statistic: self.statistic,
            fill_value: self.fill_value,
            skipna: self.skipna,
        }
    }
}

impl Clone for BucketResampler {
    fn clone(&self) -> (r: Self)
        ensures
            r@ == self@,
    {
        BucketResampler {
            source: self.source.clone(),
            statistic: self.statistic,
            fill_value: self.fill_value,
            skipna: self.skipna,
        }
    }
}

/// A new resampler: values that do not count are left out.
pub open spec fn new_bucket(source: SwathView, statistic: BucketStatistic) -> BucketResamplerView {
    BucketResamplerView {
        source,
        statistic,
        fill_value: F64 { bits: NAN_BITS_64 },
        skipna: true,
    }
}

impl BucketResampler {
    pub fn new(source: SwathDefinition, statistic: BucketStatistic) -> (r: Self)
        ensures
            r@ == new_bucket(source@, statistic),
    {
        BucketResampler {
            source,
            statistic,
            fill_value: F64 { bits: NAN_BITS_64 },
            skipna: true,
        }
    }

    pub fn average(source: SwathDefinition) -> (r: Self)
        ensures
            r@ == new_bucket(source@, BucketStatistic::Average),
    {
        Self::new(source, BucketStatistic::Average)
    }

    pub fn sum(source: SwathDefinition) -> (r: Self)
        ensures
            r@ == new_bucket(source@, BucketStatistic::Sum),
    {
        Self::new(source, BucketStatistic::Sum)
    }

    pub fn count(source: SwathDefinition) -> (r: Self)
        ensures
            r@ == new_bucket(source@, BucketStatistic::Count),
    {
        Self::new(source, BucketStatistic::Count)
    }

    pub fn with_fill_value(self, fill_value: F64) -> (r: Self)
        ensures
            r@ == (BucketResamplerView { fill_value, ..self@ }),
    {
        BucketResampler {
            source: self.source,
            statistic: self.statistic,
            fill_value,
            skipna: self.skipna,
        }
    }

    pub fn with_skipna(self, skipna: bool) -> (r: Self)
        ensures
            r@ == (BucketResamplerView { skipna, ..self@ }),
    {
        BucketResampler {
            source: self.source,
            statistic: self.statistic,
            fill_value: self.fill_value,
            skipna,
        }
    }

    pub fn source(&self) -> (r: &SwathDefinition)
        ensures
            r@ == self@.source,
    {
        &self.source
    }

    pub fn statistic(&self) -> (r: BucketStatistic)
        ensures
            r == self@.statistic,
    {
        self.statistic
    }

    pub fn name(&self) -> (r: &str)
        ensures
            r@ == self@.statistic.label(),
    {
        self.statistic.resampler_name()
    }

    /// A data set on an area.
    pub fn resample<
        L: Fn(F64, F64) -> (F64, F64),
        M: Fn(Vec<F64>) -> F64,
        T: Fn(Vec<F64>) -> F64,
    >(
        &self,
        dataset: &Dataset,
        destination: &AreaGrid,
        locate: &L,
        mean: &M,
        total: &T,
    ) -> (r: Result<Dataset>)
        requires
            grid_of(dataset@) is Some ==> is_plane(grid_of(dataset@)->Some_0),
            forall|a: F64, b: F64| #[trigger] locate.requires((a, b)),
            forall|v: Vec<F64>| #[trigger] mean.requires((v,)),
            forall|v: Vec<F64>| #[trigger] total.requires((v,)),
        ensures
            bucket_dataset_outcome(
                r,
                dataset@,
                self@,
                destination@,
                "bucket resampling requires f64 dataset grid values"@,
                *locate,
                *mean,
                *total,
            ),
    {
        self.resample_data(
            dataset,
            destination,
            "bucket resampling requires f64 dataset grid values",
            locate,
            mean,
            total,
        )
    }

    /// A data set that is given away on an area.
    pub fn resample_owned<
        L: Fn(F64, F64) -> (F64, F64),
        M: Fn(Vec<F64>) -> F64,
        T: Fn(Vec<F64>) -> F64,
    >(
        &self,
        dataset: Dataset,
        destination: &AreaGrid,
        locate: &L,
        mean: &M,
        total: &T,
    ) -> (r: Result<Dataset>)
        requires
            grid_of(dataset@) is Some ==> is_plane(grid_of(dataset@)->Some_0),
            forall|a: F64, b: F64| #[trigger] locate.requires((a, b)),
            forall|v: Vec<F64>| #[trigger] mean.requires((v,)),
            forall|v: Vec<F64>| #[trigger] total.requires((v,)),
        ensures
            bucket_dataset_outcome(
                r,
                dataset@,
                self@,
                destination@,
                "bucket resampling requires an f64 dataset grid"@,
                *locate,
                *mean,
                *total,
            ),
    {
        self.resample_data(
            &dataset,
            destination,
            "bucket resampling requires an f64 dataset grid",
            locate,
            mean,
            total,
        )
    }

    fn resample_data<
        L: Fn(F64, F64) -> (F64, F64),
        M: Fn(Vec<F64>) -> F64,
        T: Fn(Vec<F64>) -> F64,
    >(
        &self,
        dataset: &Dataset,
        destination: &AreaGrid,
        absent: &str,
        locate: &L,
        mean: &M,
        total: &T,
    ) -> (r: Result<Dataset>)
        requires
            grid_of(dataset@) is Some ==> is_plane(grid_of(dataset@)->Some_0),
            forall|a: F64, b: F64| #[trigger] locate.requires((a, b)),
            forall|v: Vec<F64>| #[trigger] mean.requires((v,)),
            forall|v: Vec<F64>| #[trigger] total.requires((v,)),
        ensures
            bucket_dataset_outcome(
                r,
                dataset@,
                self@,
                destination@,
                absent@,
                *locate,
                *mean,
                *total,
            ),
    {
        let source_grid = match dataset.data() {
            Some(g) => g,
            None => {
                return Err(RustySatError::invalid_input(absent));
            },
        };
        let outcome = resample_bucket_with_statistic(
            source_grid,
            &self.source,
            destination,
            self.statistic,
            self.fill_value,
            self.skipna,
            locate,
            mean,
            total,
        );
        assert(bucket_outcome(
            outcome,
            source_grid@,
            self@.source,
            destination@,
            self@.statistic,
            self@.fill_value,
            self@.skipna,
            *locate,
            *mean,
            *total,
        ));
        let plane = match outcome {
            Ok(g) => g,
            Err(e) => {
                return Err(e);
            },
        };
        let mut out = Dataset::with_descriptions_of(dataset, AnyDataArray::F64(plane));
        match self.statistic {
            BucketStatistic::Count => {
                out.insert_metadata("units", "");
                out.insert_metadata("calibration", "");
                out.insert_attr("standard_name", MetadataValue::string("number_of_observations"));
            },
            _ => {},
        }
        out.insert_metadata("area", destination.area().id());
        out.insert_metadata("resampler", self.statistic.resampler_name());
        Ok(out)
    }
}

/// A data set of counts is one of observations without a unit.
pub open spec fn adjusted(d: DatasetView, statistic: BucketStatistic) -> DatasetView {
    if statistic is Count {
        let named = with_text(with_text(d, "units"@, ""@), "calibration"@, ""@);
        DatasetView {
            attrs: named.attrs.insert(
                "standard_name"@,
                MetadataTree::Text("number_of_observations"@),
            ),
            ..named
        }
    } else {
        d
    }
}

/// The data set of a plane of statistics.
pub open spec fn bucket_dataset(
    d: DatasetView,
    plane: ArrayView<F64>,
    g: AreaGridView,
    statistic: BucketStatistic,
) -> DatasetView {
    with_text(
        with_text(
            adjusted(described(d, Some(AnyArrayView::F64(plane))), statistic),
            "area"@,
            g.area.id,
        ),
        "resampler"@,
        statistic.label(),
    )
}

/// Whether `r` is the data set of the statistics, or the first obstacle.
pub open spec fn bucket_dataset_outcome<
    L: Fn(F64, F64) -> (F64, F64),
    M: Fn(Vec<F64>) -> F64,
    T: Fn(Vec<F64>) -> F64,
>(
    r: Result<Dataset>,
    d: DatasetView,
    resampler: BucketResamplerView,
    g: AreaGridView,
    absent: Seq<char>,
    locate: L,
    mean: M,
    total: T,
) -> bool {
    match grid_of(d) {
        None => is_invalid(r, absent),
        Some(a) => exists|plane: Result<DataGrid>| #[trigger]
            bucket_outcome(
                plane,
                a,
                resampler.source,
                g,
                resampler.statistic,
                resampler.fill_value,
                resampler.skipna,
                locate,
                mean,
                total,
            ) && match plane {
                Ok(p) => r is Ok && r->Ok_0@ == bucket_dataset(d, p@, g, resampler.statistic),
                Err(e) => fails_with(r, e@),
            },
    }
}

/// Whether a place, its column and its row, lies in the pixel in row `y` and column `x`.
pub open spec fn lies_in(place: (F64, F64), y: int, x: int) -> bool {
    &&& place.0.finite() && place.1.finite()
    &&& reaches(place.1, y) && !reaches(place.1, y + 1)
    &&& reaches(place.0, x) && !reaches(place.0, x + 1)
}

/// Whether a sample takes part in a mean or a sum: it shows a value, which is not the fill
/// value.
pub open spec fn takes_part(a: ArrayView<F64>, i: int, fill: F64) -> bool {
    has_value(a, i) && !(fill.finite() && a.values[i].rank() == fill.rank())
}

/// A place lies in a pixel exactly where its bucket has the number of the pixel.
proof fn lemma_bucket_of_pixel(place: (F64, F64), height: usize, width: usize, y: int, x: int)
    requires
        0 <= y < height,
        0 <= x < width,
    ensures
        bucket_at(place, height, width) == Some(y * width + x) <==> lies_in(place, y, x),
{
    lemma_place_holds(place.1, height);
    lemma_place_holds(place.0, width);
    lemma_floor_and_ceil(place.1);
    lemma_floor_and_ceil(place.0);
    lemma_pixel_inside(y, x, height as int, width as int);
    if let (Some(p), Some(q)) = (floor_place(place.1, height), floor_place(place.0, width)) {
        lemma_pixel_inside(p as int, q as int, height as int, width as int);
    }
}

/// The places of the positions: one is in the bucket of a pixel exactly where its place lies
/// in the pixel.
pub proof fn lemma_places<L: Fn(F64, F64) -> (F64, F64)>(
    source: SwathView,
    g: AreaGridView,
    locate: L,
    buckets: Seq<Option<usize>>,
    y: int,
    x: int,
) -> (places: Seq<(F64, F64)>)
    requires
        are_buckets(source, g, locate, buckets),
        0 <= y < g.area.height,
        0 <= x < g.area.width,
    ensures
        places.len() == buckets.len(),
        forall|i: int|
            0 <= i < buckets.len() ==> locate.ensures(
                (source.lons->Some_0[i], source.lats->Some_0[i]),
                #[trigger] places[i],
            ),
        forall|i: int|
            0 <= i < buckets.len() ==> (number_of(buckets[i]) == Some(y * g.area.width + x))
                == lies_in(#[trigger] places[i], y, x),
{
    let (h, w) = (g.area.height, g.area.width);
    let n = buckets.len() as int;
    let places = Seq::new(
        n as nat,
        |i: int|
            choose|place: (F64, F64)| #[trigger]
                locate.ensures((source.lons->Some_0[i], source.lats->Some_0[i]), place)
                    && number_of(buckets[i]) == bucket_at(place, h, w),
    );
    assert forall|i: int| 0 <= i < n implies locate.ensures(
        (source.lons->Some_0[i], source.lats->Some_0[i]),
        #[trigger] places[i],
    ) && number_of(buckets[i]) == bucket_at(places[i], h, w) by {
        assert(is_bucket(source.lons->Some_0[i], source.lats->Some_0[i], g, locate, buckets[i]));
    }
    assert forall|i: int| 0 <= i < n implies (number_of(buckets[i]) == Some(y * w + x)) == lies_in(
        #[trigger] places[i],
        y,
        x,
    ) by {
        lemma_bucket_of_pixel(places[i], h, w, y, x);
    }
    places
}

/// The numbers of the positions in a bucket, and those of them that take part.
proof fn lemma_bucket_selects(
    a: ArrayView<F64>,
    buckets: Seq<Option<usize>>,
    fill: F64,
    n: int,
    b: int,
) -> (chosen: (Seq<int>, Seq<int>))
    requires
        0 <= n <= buckets.len(),
        n <= a.values.len(),
        a.mask is Some ==> a.mask->Some_0.len() == a.values.len(),
    ensures
        selects(
            bucket_values(a, buckets, fill, n, b),
            chosen.0,
            n,
            |i: int| number_of(buckets[i]) == Some(b) && takes_part(a, i, fill),
            |i: int| a.values[i],
        ),
        chosen.1.len() == hits(buckets, n, b),
        selects(
            chosen.1,
            chosen.1,
            n,
            |i: int| number_of(buckets[i]) == Some(b),
            |i: int| i,
        ),
    decreases n,
{
    let taken = |i: int| number_of(buckets[i]) == Some(b) && takes_part(a, i, fill);
    let value = |i: int| a.values[i];
    let there = |i: int| number_of(buckets[i]) == Some(b);
    let same = |i: int| i;
    if n == 0 {
        (Seq::empty(), Seq::empty())
    } else {
        let before = lemma_bucket_selects(a, buckets, fill, n - 1, b);
        lemma_selects_next(
            bucket_values(a, buckets, fill, n - 1, b),
            before.0,
            n - 1,
            taken,
            value,
        );
        lemma_selects_next(before.1, before.1, n - 1, there, same);
        (
            if taken(n - 1) {
                before.0.push(n - 1)
            } else {
                before.0
            },
            if there(n - 1) {
                before.1.push(n - 1)
            } else {
                before.1
            },
        )
    }
}

/// The statistic of the pixel in row `y` and column `x`. `places` are the places of the
/// positions, `there` the numbers of those that lie in the pixel, and `list` holds the values
/// of those of them that take part: not masked, finite, and not the fill value.
pub open spec fn is_fair_statistic<M: Fn(Vec<F64>) -> F64, T: Fn(Vec<F64>) -> F64>(
    v: F64,
    a: ArrayView<F64>,
    places: Seq<(F64, F64)>,
    there: Seq<int>,
    chosen: Seq<int>,
    list: Seq<F64>,
    y: int,
    x: int,
    statistic: BucketStatistic,
    fill: F64,
    skipna: bool,
    mean: M,
    total: T,
) -> bool {
    let n = a.values.len() as int;
    let spoilt = exists|i: int|
        0 <= i < n && lies_in(#[trigger] places[i], y, x) && !takes_part(a, i, fill);
    &&& selects(there, there, n, |i: int| lies_in(places[i], y, x), |i: int| i)
    &&& selects(
        list,
        chosen,
        n,
        |i: int| lies_in(places[i], y, x) && takes_part(a, i, fill),
        |i: int| a.values[i],
    )
    &&& match statistic {
        BucketStatistic::Count => is_nearest(v, there.len() as int),
        BucketStatistic::Average => if chosen.len() == 0 || spoilt && !skipna {
            v == fill
        } else {
            exists|values: Vec<F64>| values@ == list && #[trigger] mean.ensures((values,), v)
        },
        BucketStatistic::Sum => if spoilt && !skipna {
            v == fill
        } else if chosen.len() == 0 {
            v.bits == 0
        } else {
            exists|values: Vec<F64>| values@ == list && #[trigger] total.ensures((values,), v)
        },
    }
}

/// Resampling by buckets: each target pixel has the statistic of the samples that lie in it.
pub proof fn lemma_bucket_is_fair<
    L: Fn(F64, F64) -> (F64, F64),
    M: Fn(Vec<F64>) -> F64,
    T: Fn(Vec<F64>) -> F64,
>(
    r: Result<DataGrid>,
    a: ArrayView<F64>,
    source: SwathView,
    g: AreaGridView,
    statistic: BucketStatistic,
    fill: F64,
    skipna: bool,
    locate: L,
    mean: M,
    total: T,
    y: int,
    x: int,
) -> (out: (Seq<(F64, F64)>, Seq<int>, Seq<int>, Seq<F64>))
    requires
        bucket_outcome(r, a, source, g, statistic, fill, skipna, locate, mean, total),
        r is Ok,
        array_ok(a),
        is_plane(a),
        0 <= y < g.area.height,
        0 <= x < g.area.width,
    ensures
        out.0.len() == a.values.len(),
        forall|i: int|
            0 <= i < a.values.len() ==> locate.ensures(
                (source.lons->Some_0[i], source.lats->Some_0[i]),
                #[trigger] out.0[i],
            ),
        r->Ok_0@.values.len() == g.area.height * g.area.width,
        r->Ok_0@.mask is None,
        is_fair_statistic(
            r->Ok_0@.values[y * g.area.width + x],
            a,
            out.0,
            out.1,
            out.2,
            out.3,
            y,
            x,
            statistic,
            fill,
            skipna,
            mean,
            total,
        ),
{
    let (buckets, values) = choose|buckets: Seq<Option<usize>>, values: Seq<F64>|
        #![trigger
            are_buckets(source, g, locate, buckets),
            are_statistics(a, buckets, g, statistic, fill, skipna, mean, total, values)]
        are_buckets(source, g, locate, buckets) && are_statistics(
            a,
            buckets,
            g,
            statistic,
            fill,
            skipna,
            mean,
            total,
            values,
        ) && r is Ok && r->Ok_0@ == plane_with(PlaneNames::Swath, Some(a), g, values, None);
    lemma_plane_len(a);
    lemma_pixel_inside(y, x, g.area.height as int, g.area.width as int);
    let b = y * g.area.width + x;
    let n = a.values.len() as int;
    assert(buckets.len() == n);
    let places = lemma_places(source, g, locate, buckets, y, x);
    let (chosen, there) = lemma_bucket_selects(a, buckets, fill, n, b);
    let list = bucket_values(a, buckets, fill, n, b);
    lemma_selects_renamed(
        list,
        chosen,
        n,
        |i: int| number_of(buckets[i]) == Some(b) && takes_part(a, i, fill),
        |i: int| lies_in(places[i], y, x) && takes_part(a, i, fill),
        |i: int| a.values[i],
    );
    lemma_selects_renamed(
        there,
        there,
        n,
        |i: int| number_of(buckets[i]) == Some(b),
        |i: int| lies_in(places[i], y, x),
        |i: int| i,
    );
    assert(is_statistic(a, buckets, b, statistic, fill, skipna, mean, total, values[b]));
    let spoilt = exists|i: int|
        0 <= i < n && lies_in(#[trigger] places[i], y, x) && !takes_part(a, i, fill);
    if bucket_spoilt(a, buckets, fill, n, b) {
        let i = choose|i: int|
            0 <= i < n && number_of(#[trigger] buckets[i]) == Some(b) && invalid_sample(a, i, fill);
        assert(lies_in(places[i], y, x) && !takes_part(a, i, fill));
    }
    if spoilt {
        let i = choose|i: int|
            0 <= i < n && lies_in(#[trigger] places[i], y, x) && !takes_part(a, i, fill);
        assert(number_of(buckets[i]) == Some(b) && invalid_sample(a, i, fill));
    }
    (places, there, chosen, list)
}

/// The mean and the sum of a bucket do not depend on what a sample that does not take part
/// holds: planes with the same samples that take part, and the same values there, have the
/// same statistics.
pub proof fn lemma_bucket_ignores_missing<
    L: Fn(F64, F64) -> (F64, F64),
    M: Fn(Vec<F64>) -> F64,
    T: Fn(Vec<F64>) -> F64,
>(
    p: Result<DataGrid>,
    q: Result<DataGrid>,
    a: ArrayView<F64>,
    b: ArrayView<F64>,
    source: SwathView,
    g: AreaGridView,
    statistic: BucketStatistic,
    fill: F64,
    skipna: bool,
    locate: L,
    mean: M,
    total: T,
    y: int,
    x: int,
)
    requires
        bucket_outcome(p, a, source, g, statistic, fill, skipna, locate, mean, total),
        bucket_outcome(q, b, source, g, statistic, fill, skipna, locate, mean, total),
        p is Ok,
        q is Ok,
        !(statistic is Count),
        array_ok(a),
        array_ok(b),
        is_plane(a),
        is_plane(b),
        forall|i: int|
            0 <= i < a.values.len() ==> #[trigger] takes_part(a, i, fill) == takes_part(b, i, fill),
        forall|i: int|
            0 <= i < a.values.len() && #[trigger] takes_part(a, i, fill) ==> a.values[i]
                == b.values[i],
        one_place(locate),
        one_outcome(mean),
        one_outcome(total),
        0 <= y < g.area.height,
        0 <= x < g.area.width,
    ensures
        p->Ok_0@.values[y * g.area.width + x] == q->Ok_0@.values[y * g.area.width + x],
{
    let (places, there, i, list) = lemma_bucket_is_fair(
        p,
        a,
        source,
        g,
        statistic,
        fill,
        skipna,
        locate,
        mean,
        total,
        y,
        x,
    );
    let (other, there_too, j, list_too) = lemma_bucket_is_fair(
        q,
        b,
        source,
        g,
        statistic,
        fill,
        skipna,
        locate,
        mean,
        total,
        y,
        x,
    );
    let n = a.values.len() as int;
    lemma_plane_len(a);
    lemma_plane_len(b);
    assert(places =~= other);
    lemma_selects_same(
        list,
        list_too,
        i,
        j,
        n,
        |i: int| lies_in(places[i], y, x) && takes_part(a, i, fill),
        |i: int| lies_in(other[i], y, x) && takes_part(b, i, fill),
        |i: int| a.values[i],
        |i: int| b.values[i],
    );
    assert forall|i: int| 0 <= i < n implies (lies_in(#[trigger] places[i], y, x) && !takes_part(
        a,
        i,
        fill,
    )) == (lies_in(other[i], y, x) && !takes_part(b, i, fill)) by {
        assert(takes_part(a, i, fill) == takes_part(b, i, fill));
    }
}

/// Whether a function of lists gives one result for each list.
pub open spec fn one_outcome<F: Fn(Vec<F64>) -> F64>(f: F) -> bool {
    forall|u: Vec<F64>, v: Vec<F64>, m: F64, n: F64|
        #![trigger f.ensures((u,), m), f.ensures((v,), n)]
        u@ == v@ && f.ensures((u,), m) && f.ensures((v,), n) ==> m == n
}

/// Resampling by buckets is done exactly where the plane has the shape of the swath, the target
/// is one by longitude and latitude, and the swath has longitudes.
pub proof fn lemma_bucket_accepts<
    L: Fn(F64, F64) -> (F64, F64),
    M: Fn(Vec<F64>) -> F64,
    T: Fn(Vec<F64>) -> F64,
>(
    r: Result<DataGrid>,
    a: ArrayView<F64>,
    source: SwathView,
    g: AreaGridView,
    statistic: BucketStatistic,
    fill: F64,
    skipna: bool,
    locate: L,
    mean: M,
    total: T,
)
    requires
        bucket_outcome(r, a, source, g, statistic, fill, skipna, locate, mean, total),
        array_ok(a),
        is_plane(a),
    ensures
        r is Ok <==> a.shape == seq![source.height, source.width] && by_lonlat(g.area.projection)
            && source.lons is Some,
{
    lemma_plane_len(a);
    lemma_by_lonlat(
        g.area.projection,
        "bucket resampling without lon/lat destination projection metadata"@,
        "bucket resampling to non-lon/lat destination area"@,
    );
    if plane_size(a) == (source.height, source.width) {
        assert(a.shape =~= seq![source.height, source.width]);
    }
}

/// The name of the resampler by buckets with a statistic.
pub open spec fn bucket_name(statistic: BucketStatistic) -> Seq<char> {
    if statistic is Average {
        "bucket_avg"@
    } else if statistic is Sum {
        "bucket_sum"@
    } else {
        "bucket_count"@
    }
}

/// Resampling a data set by buckets: it has the names of the area and of the resampler, its
/// plane is the resampled plane of its grid, and numbers of samples have no unit and no
/// calibration and say what they are.
pub proof fn lemma_bucket_dataset<
    L: Fn(F64, F64) -> (F64, F64),
    M: Fn(Vec<F64>) -> F64,
    T: Fn(Vec<F64>) -> F64,
>(
    r: Result<Dataset>,
    d: DatasetView,
    resampler: BucketResamplerView,
    g: AreaGridView,
    absent: Seq<char>,
    locate: L,
    mean: M,
    total: T,
) -> (plane: Result<DataGrid>)
    requires
        bucket_dataset_outcome(r, d, resampler, g, absent, locate, mean, total),
        r is Ok,
    ensures
        d.array is Some && d.array->Some_0 is F64,
        plane is Ok,
        bucket_outcome(
            plane,
            d.array->Some_0->F64_0,
            resampler.source,
            g,
            resampler.statistic,
            resampler.fill_value,
            resampler.skipna,
            locate,
            mean,
            total,
        ),
        r->Ok_0@.array == Some(AnyArrayView::F64(plane->Ok_0@)),
        r->Ok_0@.name == d.name,
        r->Ok_0@.metadata["area"@] == g.area.id,
        r->Ok_0@.metadata["resampler"@] == bucket_name(resampler.statistic),
        r->Ok_0@.attrs["area"@] == MetadataTree::Text(g.area.id),
        r->Ok_0@.attrs["resampler"@] == MetadataTree::Text(bucket_name(resampler.statistic)),
        !(resampler.statistic is Count) ==> is_on_area(
            r->Ok_0@,
            d,
            g,
            bucket_name(resampler.statistic),
        ),
        resampler.statistic is Count ==> {
            &&& r->Ok_0@.metadata["units"@] == ""@
            &&& r->Ok_0@.metadata["calibration"@] == ""@
            &&& r->Ok_0@.attrs["units"@] == MetadataTree::Text(""@)
            &&& r->Ok_0@.attrs["calibration"@] == MetadataTree::Text(""@)
            &&& r->Ok_0@.attrs["standard_name"@] == MetadataTree::Text("number_of_observations"@)
        },
        forall|k: Seq<char>|
            #![trigger r->Ok_0@.attrs[k]]
            k != "area"@ && k != "resampler"@ && k != "units"@ && k != "calibration"@ && k
                != "standard_name"@ && d.attrs.contains_key(k) ==> r->Ok_0@.attrs[k] == d.attrs[k],
        forall|k: Seq<char>|
            #![trigger r->Ok_0@.metadata[k]]
            k != "area"@ && k != "resampler"@ && k != "units"@ && k != "calibration"@
                && d.metadata.contains_key(k) ==> r->Ok_0@.metadata[k] == d.metadata[k],
{
    reveal_strlit("area");
    reveal_strlit("resampler");
    reveal_strlit("units");
    reveal_strlit("calibration");
    reveal_strlit("standard_name");
    assert("area"@.len() == 4 && "resampler"@.len() == 9 && "units"@.len() == 5
        && "calibration"@.len() == 11 && "standard_name"@.len() == 13);
    let a = grid_of(d)->Some_0;
    let plane = choose|plane: Result<DataGrid>| #[trigger]
        bucket_outcome(
            plane,
            a,
            resampler.source,
            g,
            resampler.statistic,
            resampler.fill_value,
            resampler.skipna,
            locate,
            mean,
            total,
        ) && match plane {
            Ok(p) => r is Ok && r->Ok_0@ == bucket_dataset(d, p@, g, resampler.statistic),
            Err(e) => fails_with(r, e@),
        };
    let v = AnyArrayView::F64(plane->Ok_0@);
    lemma_resampled(d, v, g, bucket_name(resampler.statistic));
    if !(resampler.statistic is Count) {
        assert(r->Ok_0@ == resampled(d, v, g.area.id, bucket_name(resampler.statistic)));
    }
    plane
}

/// A plane by buckets has the axes of the target and no positions.
pub proof fn lemma_bucket_coordinates<
    L: Fn(F64, F64) -> (F64, F64),
    M: Fn(Vec<F64>) -> F64,
    T: Fn(Vec<F64>) -> F64,
>(
    r: Result<DataGrid>,
    a: ArrayView<F64>,
    source: SwathView,
    g: AreaGridView,
    statistic: BucketStatistic,
    fill: F64,
    skipna: bool,
    locate: L,
    mean: M,
    total: T,
)
    requires
        bucket_outcome(r, a, source, g, statistic, fill, skipna, locate, mean, total),
        r is Ok,
    ensures
        keeps_swath_coordinates(r->Ok_0@, a, g),
{
    let (buckets, values) = choose|buckets: Seq<Option<usize>>, values: Seq<F64>|
        #![trigger
            are_buckets(source, g, locate, buckets),
            are_statistics(a, buckets, g, statistic, fill, skipna, mean, total, values)]
        are_buckets(source, g, locate, buckets) && are_statistics(
            a,
            buckets,
            g,
            statistic,
            fill,
            skipna,
            mean,
            total,
            values,
        ) && r is Ok && r->Ok_0@ == plane_with(PlaneNames::Swath, Some(a), g, values, None);
    lemma_swath_coordinates_kept(a, g, values, None);
}

} // verus!
