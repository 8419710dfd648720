//! The fractions of the pixels of an area that are in each of several categories.

use crate::area::{AreaGrid, AreaGridView};
use crate::array::{
    array_ok, copy_values, counts, has_value, lemma_plane_len, valid_value, AnyArrayView,
    AnyDataArray, ArrayView, Coordinate, CoordinateView, DataArray, DataGrid,
};
use crate::assemble::{
    add_plane_coords, has_plane, is_plane, lemma_axis_fits, plane_coordinates,
};
use crate::bucket::{
    are_buckets, bucket_indices, bucket_target_error, buckets_within, count_hits, hits,
    lemma_places, lemma_same_buckets, lies_in, missing_lons, number_of, one_place, validate_bucket, zeros,
};
use crate::dataset::{grid_of, is_on_area, lemma_resampled, resampled, Dataset, DatasetView};
use crate::error::{fails_with, is_invalid, ErrorView, Result, RustySatError};
use crate::nd_utils::{lemma_pixel_inside, size_of_shape};
use crate::nearest::{by_lonlat, grid_shape, lemma_by_lonlat, plane_size};
use crate::number::{F64, NAN_BITS_64};
use crate::selection::{lemma_selects_next, lemma_selects_renamed, selects};
use crate::swath::{SwathDefinition, SwathView};
use crate::text::{owned, texts};
use vstd::arithmetic::div_mod::lemma_fundamental_div_mod;
use vstd::prelude::*;

verus! {

/// The error with which a list of categories is refused, if it is.
pub open spec fn categories_error(categories: Seq<F64>) -> Option<ErrorView> {
    if categories.len() == 0 {
        Some(ErrorView::InvalidInput("bucket fraction requires at least one category"@))
    } else if exists|i: int| 0 <= i < categories.len() && !(#[trigger] categories[i]).finite() {
        Some(ErrorView::InvalidInput("bucket fraction categories must be finite"@))
    } else {
        None
    }
}

/// Refuses a list without categories, and one with a category that is not finite.
fn validate_categories(categories: &Vec<F64>) -> (r: Result<()>)
    ensures
        match categories_error(categories@) {
            Some(e) => fails_with(r, e),
            None => r is Ok,
        },
{
    if categories.len() == 0 {
        return Err(RustySatError::invalid_input("bucket fraction requires at least one category"));
    }
    let mut i: usize = 0;
    while i < categories.len()
        invariant
            i <= categories@.len(),
            categories@.len() > 0,
            forall|j: int| 0 <= j < i ==> (#[trigger] categories@[j]).finite(),
        decreases categories@.len() - i,
    {
        if !categories[i].is_finite() {
            assert(!categories@[i as int].finite());
            return Err(RustySatError::invalid_input("bucket fraction categories must be finite"));
        }
        i = i + 1;
    }
    Ok(())
}

/// Whether `c` are the values that count of a plane, each once and in increasing order;
/// of both zeros the negative one, where it occurs.
pub open spec fn are_categories(a: ArrayView<F64>, n: int, c: Seq<F64>) -> bool {
    &&& forall|i: int| 0 <= i < c.len() ==> occurs(a, n, #[trigger] c[i])
    &&& forall|i: int, j: int| 0 <= i < j < c.len() ==> (#[trigger] c[i]).less(#[trigger] c[j])
    &&& forall|k: int|
        0 <= k < n && #[trigger] counts(a.values, a.mask, k) ==> has_category(c, a.values[k])
}

/// Whether a value that counts occurs among the first `n`.
pub open spec fn occurs(a: ArrayView<F64>, n: int, v: F64) -> bool {
    exists|k: int| 0 <= k < n && #[trigger] counts(a.values, a.mask, k) && a.values[k] == v
}

/// Whether a value is in one of the categories.
pub open spec fn has_category(c: Seq<F64>, v: F64) -> bool {
    exists|i: int|
        0 <= i < c.len() && (#[trigger] c[i]).same_number(v) && c[i].total_rank() <= v.total_rank()
}

/// Whether no value of a plane counts.
pub open spec fn none_counts(a: ArrayView<F64>) -> bool {
    forall|k: int| 0 <= k < a.values.len() ==> !#[trigger] counts(a.values, a.mask, k)
}

/// The values that count of a plane, each once and in increasing order.
pub fn discover_bucket_fraction_categories(source_grid: &DataGrid) -> (r: Result<Vec<F64>>)
    ensures
        if none_counts(source_grid@) {
            is_invalid(r, "bucket fraction requires at least one category"@)
        } else {
            r is Ok && r->Ok_0@.len() > 0 && are_categories(
                source_grid@,
                source_grid@.values.len() as int,
                r->Ok_0@,
            )
        },
{
    let ghost a = source_grid@;
    let count: usize = source_grid.len();
    let mut c: Vec<F64> = Vec::new();
    let mut k: usize = 0;
    while k < count
        invariant
            k <= count,
            count == a.values.len(),
            a == source_grid@,
            are_categories(a, k as int, c@),
        decreases count - k,
    {
        match valid_value(source_grid, k) {
            Some(v) => {
                let ghost before = c@;
                add_category(&mut c, v);
                proof {
                    assert(counts(a.values, a.mask, k as int));
                    lemma_category_added(a, k as int, before, c@);
                }
            },
            None => {
                proof {
                    lemma_category_skipped(a, k as int, c@);
                }
            },
        }
        k = k + 1;
    }
    proof {
        assert(forall|i: int| 0 <= i < c@.len() ==> occurs(a, count as int, #[trigger] c@[i]));
        if c@.len() > 0 {
            assert(occurs(a, count as int, c@[0]));
            let k = choose|k: int|
                0 <= k < count && #[trigger] counts(a.values, a.mask, k) && a.values[k] == c@[0];
            assert(counts(a.values, a.mask, k));
            assert(!none_counts(a));
        } else {
            assert forall|k: int| 0 <= k < a.values.len() implies !#[trigger] counts(
                a.values,
                a.mask,
                k,
            ) by {
                if counts(a.values, a.mask, k) {
                    assert(has_category(c@, a.values[k]));
                }
            }
        }
    }
    match validate_categories(&c) {
        Ok(()) => Ok(c),
        Err(e) => Err(e),
    }
}

/// Whether `c` is `before` with the category of `v`.
pub open spec fn is_with_category(before: Seq<F64>, v: F64, c: Seq<F64>) -> bool {
    &&& forall|i: int, j: int| 0 <= i < j < c.len() ==> (#[trigger] c[i]).less(#[trigger] c[j])
    &&& forall|i: int| 0 <= i < c.len() ==> before.contains(#[trigger] c[i]) || c[i] == v
    &&& has_category(c, v)
    &&& forall|w: F64| #[trigger] has_category(before, w) ==> has_category(c, w)
}

/// Puts the category of a value among others, at its place.
fn add_category(c: &mut Vec<F64>, v: F64)
    requires
        v.finite(),
        forall|i: int, j: int|
            0 <= i < j < old(c)@.len() ==> (#[trigger] old(c)@[i]).less(#[trigger] old(c)@[j]),
        forall|i: int| 0 <= i < old(c)@.len() ==> (#[trigger] old(c)@[i]).finite(),
    ensures
        is_with_category(old(c)@, v, final(c)@),
{
    let ghost before = c@;
    let mut p: usize = 0;
    while p < c.len() && c[p].lt(v)
        invariant
            p <= c@.len(),
            c@ == before,
            forall|i: int| 0 <= i < p ==> (#[trigger] before[i]).less(v),
        decreases c@.len() - p,
    {
        p = p + 1;
    }
    if p < c.len() && c[p].equals(v) {
        if v.totally_before(c[p]) {
            c.set(p, v);
            proof {
                assert(c@[p as int].same_number(v));
                assert forall|w: F64| #[trigger] has_category(before, w) implies has_category(
                    c@,
                    w,
                ) by {
                    let i = choose|i: int|
                        0 <= i < before.len() && (#[trigger] before[i]).same_number(w)
                            && before[i].total_rank() <= w.total_rank();
                    assert(c@[i].same_number(w) && c@[i].total_rank() <= w.total_rank());
                }
                assert forall|i: int| 0 <= i < c@.len() implies before.contains(#[trigger] c@[i])
                    || c@[i] == v by {
                    if i != p {
                        assert(c@[i] == before[i]);
                    }
                }
            }
        } else {
            assert(c@[p as int].same_number(v));
            assert(has_category(c@, v));
        }
    } else {
        c.insert(p, v);
        proof {
            let now = c@;
            assert(now[p as int] == v);
            assert(has_category(now, v));
            assert forall|i: int, j: int| 0 <= i < j < now.len() implies (#[trigger] now[i]).less(
                #[trigger] now[j],
            ) by {
                let i0 = if i < p {
                    i
                } else {
                    i - 1
                };
                let j0 = if j < p {
                    j
                } else {
                    j - 1
                };
                if i != p && j != p {
                    assert(before[i0].less(before[j0]));
                } else if i == p {
                    assert(!before[p as int].less(v));
                    assert(j0 == p || before[p as int].less(before[j0]));
                } else {
                    assert(before[i].less(v));
                }
            }
            assert forall|w: F64| #[trigger] has_category(before, w) implies has_category(now, w) by {
                let i = choose|i: int|
                    0 <= i < before.len() && (#[trigger] before[i]).same_number(w)
                        && before[i].total_rank() <= w.total_rank();
                let k = if i < p {
                    i
                } else {
                    i + 1
                };
                assert(now[k] == before[i]);
                assert(now[k].same_number(w));
            }
            assert forall|i: int| 0 <= i < now.len() implies before.contains(#[trigger] now[i])
                || now[i] == v by {
                if i < p {
                    assert(now[i] == before[i]);
                } else if i > p {
                    assert(now[i] == before[i - 1]);
                }
            }
        }
    }
}

proof fn lemma_category_added(a: ArrayView<F64>, k: int, before: Seq<F64>, c: Seq<F64>)
    requires
        0 <= k < a.values.len(),
        counts(a.values, a.mask, k),
        are_categories(a, k, before),
        is_with_category(before, a.values[k], c),
    ensures
        are_categories(a, k + 1, c),
{
    assert forall|i: int| 0 <= i < c.len() implies occurs(a, k + 1, #[trigger] c[i]) by {
        if before.contains(c[i]) {
            let j = choose|j: int| 0 <= j < before.len() && before[j] == c[i];
            assert(occurs(a, k, before[j]));
            let m = choose|m: int|
                0 <= m < k && #[trigger] counts(a.values, a.mask, m) && a.values[m] == c[i];
            assert(counts(a.values, a.mask, m));
        }
    }
    assert forall|m: int|
        0 <= m < k + 1 && #[trigger] counts(a.values, a.mask, m) implies has_category(
        c,
        a.values[m],
    ) by {
        if m < k {
            assert(has_category(before, a.values[m]));
        }
    }
}

proof fn lemma_category_skipped(a: ArrayView<F64>, k: int, c: Seq<F64>)
    requires
        !counts(a.values, a.mask, k),
        are_categories(a, k, c),
    ensures
        are_categories(a, k + 1, c),
{
    assert forall|i: int| 0 <= i < c.len() implies occurs(a, k + 1, #[trigger] c[i]) by {
        assert(occurs(a, k, c[i]));
        let m = choose|m: int|
            0 <= m < k && #[trigger] counts(a.values, a.mask, m) && a.values[m] == c[i];
        assert(counts(a.values, a.mask, m));
    }
}

/// The first category that a value is in, or their number.
pub open spec fn category_of(categories: Seq<F64>, v: F64) -> int
    decreases categories.len(),
{
    if categories.len() == 0 {
        0
    } else if categories[0].same_number(v) {
        0
    } else {
        1 + category_of(categories.drop_first(), v)
    }
}

/// The first category that a value is in, or their number.
fn find_category(categories: &Vec<F64>, v: F64) -> (r: usize)
    ensures
        r == category_of(categories@, v),
        r <= categories@.len(),
{
    let mut i: usize = 0;
    assert(categories@.skip(0) =~= categories@);
    while i < categories.len()
        invariant
            i <= categories@.len(),
            category_of(categories@, v) == i + category_of(categories@.skip(i as int), v),
        decreases categories@.len() - i,
    {
        proof {
            let rest = categories@.skip(i as int);
            assert(rest[0] == categories@[i as int]);
            assert(rest.drop_first() =~= categories@.skip(i + 1));
        }
        if categories[i].equals(v) {
            return i;
        }
        i = i + 1;
    }
    proof {
        assert(categories@.skip(i as int).len() == 0);
    }
    i
}

/// How many of the first `n` positions in a bucket have a value that counts in category
/// `c`.
pub open spec fn category_hits(
    a: ArrayView<F64>,
    buckets: Seq<Option<usize>>,
    categories: Seq<F64>,
    n: int,
    b: int,
    c: int,
) -> int
    decreases n,
{
    if n <= 0 {
        0
    } else {
        category_hits(a, buckets, categories, n - 1, b, c) + if number_of(buckets[n - 1]) == Some(b)
            && counts(a.values, a.mask, n - 1) && category_of(categories, a.values[n - 1]) == c {
            1int
        } else {
            0
        }
    }
}

/// The positions of a category in a bucket are some of those in the bucket.
pub proof fn lemma_category_within_bucket(
    a: ArrayView<F64>,
    buckets: Seq<Option<usize>>,
    categories: Seq<F64>,
    n: int,
    b: int,
    c: int,
)
    ensures
        0 <= category_hits(a, buckets, categories, n, b, c) <= hits(buckets, n, b),
    decreases n,
{
    if n > 0 {
        lemma_category_within_bucket(a, buckets, categories, n - 1, b, c);
    }
}

/// The number of the positions in the first `k` categories of a bucket.
pub open spec fn sum_of_category_hits(
    a: ArrayView<F64>,
    buckets: Seq<Option<usize>>,
    categories: Seq<F64>,
    n: int,
    b: int,
    k: int,
) -> int
    decreases k,
{
    if k <= 0 {
        0
    } else {
        sum_of_category_hits(a, buckets, categories, n, b, k - 1) + category_hits(
            a,
            buckets,
            categories,
            n,
            b,
            k - 1,
        )
    }
}

proof fn lemma_category_hit_adds_one(
    a: ArrayView<F64>,
    buckets: Seq<Option<usize>>,
    categories: Seq<F64>,
    n: int,
    b: int,
    k: int,
)
    requires
        0 < n,
    ensures
        sum_of_category_hits(a, buckets, categories, n, b, k) <= sum_of_category_hits(
            a,
            buckets,
            categories,
            n - 1,
            b,
            k,
        ) + if number_of(buckets[n - 1]) == Some(b) && 0 <= category_of(
            categories,
            a.values[n - 1],
        ) < k {
            1int
        } else {
            0
        },
    decreases k,
{
    if k > 0 {
        lemma_category_hit_adds_one(a, buckets, categories, n, b, k - 1);
    }
}

proof fn lemma_no_category_hits(
    a: ArrayView<F64>,
    buckets: Seq<Option<usize>>,
    categories: Seq<F64>,
    b: int,
    k: int,
)
    ensures
        sum_of_category_hits(a, buckets, categories, 0, b, k) == 0,
    decreases k,
{
    if k > 0 {
        lemma_no_category_hits(a, buckets, categories, b, k - 1);
    }
}

/// A position is in one category at most: the numbers of positions in the categories of
/// a bucket add up to no more than the positions in the bucket.
pub proof fn lemma_category_hits_add_up(
    a: ArrayView<F64>,
    buckets: Seq<Option<usize>>,
    categories: Seq<F64>,
    n: int,
    b: int,
    k: int,
)
    requires
        n >= 0,
    ensures
        sum_of_category_hits(a, buckets, categories, n, b, k) <= hits(buckets, n, b),
    decreases n,
{
    if n == 0 {
        lemma_no_category_hits(a, buckets, categories, b, k);
    } else {
        lemma_category_hits_add_up(a, buckets, categories, n - 1, b, k);
        lemma_category_hit_adds_one(a, buckets, categories, n, b, k);
    }
}

/// How many positions of each bucket are in each category.
fn count_categories(
    source_grid: &DataGrid,
    buckets: &Vec<Option<usize>>,
    categories: &Vec<F64>,
    size: usize,
) -> (r: Vec<Vec<usize>>)
    requires
        buckets@.len() == source_grid@.values.len(),
        buckets_within(buckets@, size as int),
    ensures
        r@.len() == categories@.len(),
        forall|c: int| 0 <= c < categories@.len() ==> (#[trigger] r@[c])@.len() == size,
        forall|c: int, b: int|
            0 <= c < categories@.len() && 0 <= b < size ==> (#[trigger] r@[c]@[b])
                == category_hits(
                source_grid@,
                buckets@,
                categories@,
                buckets@.len() as int,
                b,
                c,
            ),
{
    let ghost a = source_grid@;
    let k: usize = categories.len();
    let mut r: Vec<Vec<usize>> = Vec::new();
    while r.len() < k
        invariant
            r@.len() <= k,
            forall|c: int| 0 <= c < r@.len() ==> (#[trigger] r@[c])@.len() == size,
            forall|c: int, b: int|
                0 <= c < r@.len() && 0 <= b < size ==> (#[trigger] r@[c]@[b]) == 0,
        decreases k - r@.len(),
    {
        r.push(zeros(size));
    }
    let count: usize = buckets.len();
    let mut i: usize = 0;
    while i < count
        invariant
            i <= count,
            count == buckets@.len(),
            count == a.values.len(),
            a == source_grid@,
            k == categories@.len(),
            r@.len() == k,
            buckets_within(buckets@, size as int),
            forall|c: int| 0 <= c < k ==> (#[trigger] r@[c])@.len() == size,
            forall|c: int, b: int|
                0 <= c < k && 0 <= b < size ==> (#[trigger] r@[c]@[b]) == category_hits(
                    a,
                    buckets@,
                    categories@,
                    i as int,
                    b,
                    c,
                ),
            forall|c: int, b: int| 0 <= c < k && 0 <= b < size ==> (#[trigger] r@[c]@[b]) <= i,
        decreases count - i,
    {
        let ghost before = r@;
        match buckets[i] {
            Some(t) => {
                assert(buckets@[i as int] is Some);
                match valid_value(source_grid, i) {
                    Some(v) => {
                        let c: usize = find_category(categories, v);
                        if c < k {
                            assert(r@[c as int]@[t as int] <= i);
                            let n: usize = r[c][t] + 1;
                            r[c].set(t, n);
                        }
                    },
                    None => {},
                }
            },
            None => {},
        }
        proof {
            assert forall|c: int, b: int| 0 <= c < k && 0 <= b < size implies (#[trigger] r@[c]@[b])
                == category_hits(a, buckets@, categories@, i + 1, b, c) && r@[c]@[b] <= i + 1 by {
                assert(before[c]@[b] == category_hits(a, buckets@, categories@, i as int, b, c));
            }
        }
        i = i + 1;
    }
    r
}

/// Whether `v` is the fraction of a bucket that is in a category: `ratio` of the numbers
/// of positions, or the fill value where there is no position.
pub open spec fn is_fraction<R: Fn(usize, usize) -> F64>(
    a: ArrayView<F64>,
    buckets: Seq<Option<usize>>,
    categories: Seq<F64>,
    b: int,
    c: int,
    fill: F64,
    ratio: R,
    v: F64,
) -> bool {
    let n = buckets.len() as int;
    if hits(buckets, n, b) == 0 {
        v == fill
    } else {
        ratio.ensures(
            (
                category_hits(a, buckets, categories, n, b, c) as usize,
                hits(buckets, n, b) as usize,
            ),
            v,
        )
    }
}

/// Whether `values` are the fractions, category by category and in each bucket by bucket.
pub open spec fn are_fractions<R: Fn(usize, usize) -> F64>(
    a: ArrayView<F64>,
    buckets: Seq<Option<usize>>,
    categories: Seq<F64>,
    size: int,
    fill: F64,
    ratio: R,
    values: Seq<F64>,
) -> bool {
    &&& values.len() == categories.len() * size
    &&& forall|c: int, b: int|
        0 <= c < categories.len() && 0 <= b < size ==> #[trigger] fraction_at(
            a,
            buckets,
            categories,
            size,
            b,
            c,
            fill,
            ratio,
            values,
        )
}

/// Whether the value of a category and a bucket is the fraction.
pub open spec fn fraction_at<R: Fn(usize, usize) -> F64>(
    a: ArrayView<F64>,
    buckets: Seq<Option<usize>>,
    categories: Seq<F64>,
    size: int,
    b: int,
    c: int,
    fill: F64,
    ratio: R,
    values: Seq<F64>,
) -> bool {
    is_fraction(a, buckets, categories, b, c, fill, ratio, values[c * size + b])
}

/// The fractions of all categories and buckets.
fn fractions<R: Fn(usize, usize) -> F64>(
    source_grid: &DataGrid,
    buckets: &Vec<Option<usize>>,
    categories: &Vec<F64>,
    size: usize,
    fill_value: F64,
    ratio: &R,
) -> (r: Vec<F64>)
    requires
        buckets@.len() == source_grid@.values.len(),
        buckets_within(buckets@, size as int),
        forall|p: usize, q: usize| #[trigger] ratio.requires((p, q)),
    ensures
        are_fractions(
            source_grid@,
            buckets@,
            categories@,
            size as int,
            fill_value,
            *ratio,
            r@,
        ),
{
    let ghost a = source_grid@;
    let ghost cs = categories@;
    let totals = count_hits(buckets, size);
    let counted = count_categories(source_grid, buckets, categories, size);
    let k: usize = categories.len();
    let mut values: Vec<F64> = Vec::new();
    let mut c: usize = 0;
    while c < k
        invariant
            c <= k,
            k == cs.len(),
            cs == categories@,
            totals@.len() == size,
            counted@.len() == k,
            forall|p: usize, q: usize| #[trigger] ratio.requires((p, q)),
            forall|d: int| 0 <= d < k ==> (#[trigger] counted@[d])@.len() == size,
            forall|b: int|
                0 <= b < size ==> #[trigger] totals@[b] == hits(
                    buckets@,
                    buckets@.len() as int,
                    b,
                ),
            forall|d: int, b: int|
                0 <= d < k && 0 <= b < size ==> (#[trigger] counted@[d]@[b]) == category_hits(
                    a,
                    buckets@,
                    cs,
                    buckets@.len() as int,
                    b,
                    d,
                ),
            values@.len() == c * size,
            forall|d: int, b: int|
                0 <= d < c && 0 <= b < size ==> #[trigger] fraction_at(
                    a,
                    buckets@,
                    cs,
                    size as int,
                    b,
                    d,
                    fill_value,
                    *ratio,
                    values@,
                ),
        decreases k - c,
    {
        let ghost before = values@;
        let mut t: usize = 0;
        while t < size
            invariant
                t <= size,
                c < k,
                k == cs.len(),
                totals@.len() == size,
                counted@.len() == k,
                counted@[c as int]@.len() == size,
                forall|p: usize, q: usize| #[trigger] ratio.requires((p, q)),
                forall|b: int|
                    0 <= b < size ==> #[trigger] totals@[b] == hits(
                        buckets@,
                        buckets@.len() as int,
                        b,
                    ),
                forall|d: int, b: int|
                    0 <= d < k && 0 <= b < size ==> (#[trigger] counted@[d]@[b]) == category_hits(
                        a,
                        buckets@,
                        cs,
                        buckets@.len() as int,
                        b,
                        d,
                    ),
                before.len() == c * size,
                values@.len() == before.len() + t,
                values@.take(before.len() as int) == before,
                forall|b: int|
                    0 <= b < t ==> #[trigger] is_fraction(
                        a,
                        buckets@,
                        cs,
                        b,
                        c as int,
                        fill_value,
                        *ratio,
                        values@[before.len() + b],
                    ),
            decreases size - t,
        {
            let ghost so_far = values@;
            let total: usize = totals[t];
            let v: F64 = if total == 0 {
                fill_value
            } else {
                let part: usize = counted[c][t];
                ratio(part, total)
            };
            assert(is_fraction(a, buckets@, cs, t as int, c as int, fill_value, *ratio, v));
            values.push(v);
            proof {
                assert(values@.take(before.len() as int) =~= before);
                assert forall|b: int| 0 <= b < t + 1 implies #[trigger] is_fraction(
                    a,
                    buckets@,
                    cs,
                    b,
                    c as int,
                    fill_value,
                    *ratio,
                    values@[before.len() + b],
                ) by {
                    if b < t {
                        assert(values@[before.len() + b] == so_far[before.len() + b]);
                    }
                }
            }
            t = t + 1;
        }
        proof {
            assert(c * size + size == (c + 1) * size) by (nonlinear_arith);
            assert forall|d: int, b: int|
                0 <= d < c + 1 && 0 <= b < size implies #[trigger] fraction_at(
                a,
                buckets@,
                cs,
                size as int,
                b,
                d,
                fill_value,
                *ratio,
                values@,
            ) by {
                if d < c {
                    assert(0 <= d * size + b < c * size) by (nonlinear_arith)
                        requires
                            0 <= d < c,
                            0 <= b < size,
                    ;
                    assert(fraction_at(
                        a,
                        buckets@,
                        cs,
                        size as int,
                        b,
                        d,
                        fill_value,
                        *ratio,
                        before,
                    ));
                    assert(values@[d * size + b] == values@.take(before.len() as int)[d * size + b]);
                } else {
                    assert(is_fraction(
                        a,
                        buckets@,
                        cs,
                        b,
                        c as int,
                        fill_value,
                        *ratio,
                        values@[before.len() + b],
                    ));
                }
            }
        }
        c = c + 1;
    }
    values
}

/// The array of fractions: its values, and the coordinates along its three dimensions.
pub open spec fn fraction_array(g: AreaGridView, categories: Seq<F64>, values: Seq<F64>) -> ArrayView<
    F64,
> {
    ArrayView {
        shape: seq![categories.len() as usize, g.area.height, g.area.width],
        dims: seq!["categories"@, "y"@, "x"@],
        values,
        mask: None,
        coords: plane_coordinates(
            Map::empty().insert(
                "categories"@,
                CoordinateView { dims: seq!["categories"@], values: categories },
            ),
            g,
        ),
    }
}

/// The error with which a plane, a target or the categories are refused, if they are.
pub open spec fn fraction_error(
    a: ArrayView<F64>,
    source: SwathView,
    g: AreaGridView,
    categories: Seq<F64>,
) -> Option<ErrorView> {
    match bucket_target_error(a, source, g) {
        Some(e) => Some(e),
        None => match categories_error(categories) {
            Some(e) => Some(e),
            None => missing_lons(source),
        },
    }
}

/// Whether `r` is the array of fractions, or the first obstacle.
pub open spec fn fraction_outcome<
    L: Fn(F64, F64) -> (F64, F64),
    R: Fn(usize, usize) -> F64,
>(
    r: Result<DataArray<F64>>,
    a: ArrayView<F64>,
    source: SwathView,
    g: AreaGridView,
    categories: Seq<F64>,
    fill: F64,
    locate: L,
    ratio: R,
) -> bool {
    match fraction_error(a, source, g, categories) {
        Some(e) => fails_with(r, e),
        None => exists|buckets: Seq<Option<usize>>| #[trigger]
            are_buckets(source, g, locate, buckets) && r is Ok && has_fractions(
                r->Ok_0@,
                a,
                g,
                buckets,
                categories,
                fill,
                ratio,
            ),
    }
}

/// Whether an array is that of the fractions.
pub open spec fn has_fractions<R: Fn(usize, usize) -> F64>(
    out: ArrayView<F64>,
    a: ArrayView<F64>,
    g: AreaGridView,
    buckets: Seq<Option<usize>>,
    categories: Seq<F64>,
    fill: F64,
    ratio: R,
) -> bool {
    &&& are_fractions(
        a,
        buckets,
        categories,
        g.area.height * g.area.width,
        fill,
        ratio,
        out.values,
    )
    &&& out == fraction_array(g, categories, out.values)
}

proof fn lemma_fraction_names()
    ensures
        seq!["categories"@, "y"@, "x"@].no_duplicates(),
{
    crate::array::lemma_y_is_not_x();
    reveal_strlit("categories");
    reveal_strlit("y");
    reveal_strlit("x");
    let dims = seq!["categories"@, "y"@, "x"@];
    assert("categories"@.len() == 10 && "y"@.len() == 1 && "x"@.len() == 1);
    assert forall|i: int, j: int|
        0 <= i < dims.len() && 0 <= j < dims.len() && i != j implies dims[i] != dims[j] by {
        assert(dims[0] == "categories"@ && dims[1] == "y"@ && dims[2] == "x"@);
    }
}

/// The fractions of each bucket that are in the categories. `locate` gives the column
/// and the row of a position, `ratio` the quotient of two counts.
pub fn resample_bucket_fraction<
    L: Fn(F64, F64) -> (F64, F64),
    R: Fn(usize, usize) -> F64,
>(
    source_grid: &DataGrid,
    source: &SwathDefinition,
    destination: &AreaGrid,
    categories: &Vec<F64>,
    fill_value: F64,
    locate: &L,
    ratio: &R,
) -> (r: Result<DataArray<F64>>)
    requires
        is_plane(source_grid@),
        forall|a: F64, b: F64| #[trigger] locate.requires((a, b)),
        forall|p: usize, q: usize| #[trigger] ratio.requires((p, q)),
    ensures
        fraction_outcome(
            r,
            source_grid@,
            source@,
            destination@,
            categories@,
            fill_value,
            *locate,
            *ratio,
        ),
{
    proof {
        use_type_invariant(source_grid);
        use_type_invariant(destination);
    }
    match validate_bucket(source_grid, source, destination) {
        Ok(()) => {},
        Err(e) => {
            return Err(e);
        },
    }
    match validate_categories(categories) {
        Ok(()) => {},
        Err(e) => {
            return Err(e);
        },
    }
    let buckets = match bucket_indices(source, destination, locate) {
        Ok(b) => b,
        Err(e) => {
            return Err(e);
        },
    };
    let _shape = grid_shape(source_grid);
    let (height, width) = destination.shape();
    let ghost g = destination@;
    let values = fractions(
        source_grid,
        &buckets,
        categories,
        height * width,
        fill_value,
        ratio,
    );
    let ghost out_values = values@;
    let k: usize = categories.len();
    let mut shape: Vec<usize> = Vec::new();
    shape.push(k);
    shape.push(height);
    shape.push(width);
    let mut dims: Vec<String> = Vec::new();
    dims.push(owned("categories"));
    dims.push(owned("y"));
    dims.push(owned("x"));
    proof {
        lemma_fraction_names();
        assert(texts(dims@) =~= seq!["categories"@, "y"@, "x"@]);
        assert(shape@ =~= seq![k, height, width]);
        assert(size_of_shape(shape@) == k * (height * width)) by {
            crate::array::lemma_plane_size(height, width);
            assert(shape@.drop_first() =~= seq![height, width]);
        }
    }
    let array = match DataArray::from_vec_named(shape, dims, values) {
        Ok(array) => array,
        Err(e) => {
            return Err(e);
        },
    };
    proof {
        let names = seq!["categories"@, "y"@, "x"@];
        assert(names[0] == "categories"@ && names[1] == "y"@ && names[2] == "x"@);
        crate::text::lemma_position_in(names, "categories"@);
        crate::text::lemma_position_in(names, "y"@);
        crate::text::lemma_position_in(names, "x"@);
        lemma_axis_fits("categories"@, categories@, array@.dims, array@.shape);
    }
    let array = match array.with_coordinate(
        "categories",
        Coordinate::axis("categories", copy_values(categories)),
    ) {
        Ok(array) => array,
        Err(e) => {
            return Err(e);
        },
    };
    assert(has_plane(array@, g));
    let r = add_plane_coords(array, destination);
    proof {
        assert(are_buckets(source@, g, *locate, buckets@));
        assert(r->Ok_0@ =~= fraction_array(g, categories@, out_values));
        assert(has_fractions(
            r->Ok_0@,
            source_grid@,
            g,
            buckets@,
            categories@,
            fill_value,
            *ratio,
        ));
    }
    r
}

/// Whether `r` is the array of the fractions in the categories that occur, or the first
/// obstacle.
pub open spec fn auto_fraction_outcome<
    L: Fn(F64, F64) -> (F64, F64),
    R: Fn(usize, usize) -> F64,
>(
    r: Result<DataArray<F64>>,
    a: ArrayView<F64>,
    source: SwathView,
    g: AreaGridView,
    fill: F64,
    locate: L,
    ratio: R,
) -> bool {
    if none_counts(a) {
        is_invalid(r, "bucket fraction requires at least one category"@)
    } else {
        exists|categories: Seq<F64>| #[trigger]
            are_categories(a, a.values.len() as int, categories) && fraction_outcome(
                r,
                a,
                source,
                g,
                categories,
                fill,
                locate,
                ratio,
            )
    }
}

/// Whether two counts have one ratio.
pub open spec fn one_ratio<R: Fn(usize, usize) -> F64>(ratio: R) -> bool {
    forall|m: usize, n: usize, p: F64, q: F64|
        #![trigger ratio.ensures((m, n), p), ratio.ensures((m, n), q)]
        ratio.ensures((m, n), p) && ratio.ensures((m, n), q) ==> p == q
}

/// Where two counts have one ratio, the fractions of a list of categories are one list.
proof fn lemma_same_fractions<R: Fn(usize, usize) -> F64>(
    a: ArrayView<F64>,
    buckets: Seq<Option<usize>>,
    categories: Seq<F64>,
    size: int,
    fill: F64,
    ratio: R,
    u: Seq<F64>,
    v: Seq<F64>,
)
    requires
        one_ratio(ratio),
        size > 0,
        are_fractions(a, buckets, categories, size, fill, ratio, u),
        are_fractions(a, buckets, categories, size, fill, ratio, v),
    ensures
        u == v,
{
    assert forall|i: int| 0 <= i < u.len() implies u[i] == v[i] by {
        let c = i / size;
        let b = i % size;
        lemma_fundamental_div_mod(i, size);
        assert(0 <= c < categories.len()) by (nonlinear_arith)
            requires
                0 <= i < categories.len() * size,
                c == i / size,
                size > 0,
        ;
        assert(c * size + b == i) by (nonlinear_arith)
            requires
                i == size * c + b,
        ;
        assert(fraction_at(a, buckets, categories, size, b, c, fill, ratio, u));
        assert(fraction_at(a, buckets, categories, size, b, c, fill, ratio, v));
    }
    assert(u =~= v);
}

/// The array of fractions shows its categories.
proof fn lemma_categories_shown(g: AreaGridView, c: Seq<F64>, d: Seq<F64>, u: Seq<F64>, v: Seq<F64>)
    requires
        fraction_array(g, c, u) == fraction_array(g, d, v),
    ensures
        c == d,
{
    lemma_fraction_names();
    let dims = seq!["categories"@, "y"@, "x"@];
    assert(dims[0] != dims[1] && dims[0] != dims[2]);
    let x = fraction_array(g, c, u).coords;
    let y = fraction_array(g, d, v).coords;
    assert(x["categories"@].values == c);
    assert(y["categories"@].values == d);
}

/// Fractions with the categories that occur are those with the same categories given: where
/// a position has one place and two counts have one ratio, the array of the one is the array
/// of the other.
pub proof fn lemma_found_categories_given<
    L: Fn(F64, F64) -> (F64, F64),
    R: Fn(usize, usize) -> F64,
>(
    found: Result<DataArray<F64>>,
    given: Result<DataArray<F64>>,
    a: ArrayView<F64>,
    source: SwathView,
    g: AreaGridView,
    categories: Seq<F64>,
    fill: F64,
    locate: L,
    ratio: R,
)
    requires
        one_place(locate),
        one_ratio(ratio),
        g.area.height * g.area.width > 0,
        auto_fraction_outcome(found, a, source, g, fill, locate, ratio),
        found is Ok,
        found->Ok_0@ == fraction_array(g, categories, found->Ok_0@.values),
        fraction_outcome(given, a, source, g, categories, fill, locate, ratio),
    ensures
        are_categories(a, a.values.len() as int, categories),
        given is Ok,
        given->Ok_0@ == found->Ok_0@,
{
    let c = choose|c: Seq<F64>| #[trigger]
        are_categories(a, a.values.len() as int, c) && fraction_outcome(
            found,
            a,
            source,
            g,
            c,
            fill,
            locate,
            ratio,
        );
    let b1 = choose|buckets: Seq<Option<usize>>| #[trigger]
        are_buckets(source, g, locate, buckets) && found is Ok && has_fractions(
            found->Ok_0@,
            a,
            g,
            buckets,
            c,
            fill,
            ratio,
        );
    lemma_categories_shown(g, c, categories, found->Ok_0@.values, found->Ok_0@.values);
    let b2 = choose|buckets: Seq<Option<usize>>| #[trigger]
        are_buckets(source, g, locate, buckets) && given is Ok && has_fractions(
            given->Ok_0@,
            a,
            g,
            buckets,
            c,
            fill,
            ratio,
        );
    lemma_same_buckets(source, g, locate, b1, b2);
    lemma_same_fractions(
        a,
        b1,
        c,
        g.area.height * g.area.width,
        fill,
        ratio,
        found->Ok_0@.values,
        given->Ok_0@.values,
    );
}

/// The fractions of each bucket that are in the categories that occur.
pub fn resample_bucket_fraction_auto<
    L: Fn(F64, F64) -> (F64, F64),
    R: Fn(usize, usize) -> F64,
>(
    source_grid: &DataGrid,
    source: &SwathDefinition,
    destination: &AreaGrid,
    fill_value: F64,
    locate: &L,
    ratio: &R,
) -> (r: Result<DataArray<F64>>)
    requires
        is_plane(source_grid@),
        forall|a: F64, b: F64| #[trigger] locate.requires((a, b)),
        forall|p: usize, q: usize| #[trigger] ratio.requires((p, q)),
    ensures
        auto_fraction_outcome(
            r,
            source_grid@,
            source@,
            destination@,
            fill_value,
            *locate,
            *ratio,
        ),
{
    let categories = match discover_bucket_fraction_categories(source_grid) {
        Ok(c) => c,
        Err(e) => {
            return Err(e);
        },
    };
    resample_bucket_fraction(
        source_grid,
        source,
        destination,
        &categories,
        fill_value,
        locate,
        ratio,
    )
}

/// A resampler by fractions, as a mathematical value. Without categories it takes those
/// that occur.
#[verifier::ext_equal]
pub struct BucketFractionView {
    pub source: SwathView,
    pub categories: Option<Seq<F64>>,
    pub fill_value: F64,
}

/// A resampler by fractions.
#[derive(Debug)]
pub struct BucketFractionResampler {
    source: SwathDefinition,
    categories: Vec<F64>,
    discover_categories: bool,
    fill_value: F64,
}

impl View for BucketFractionResampler {
    type V = BucketFractionView;

    closed spec fn view(&self) -> BucketFractionView {
        BucketFractionView {
            source: self.source@,
            categories: if self.discover_categories {
                None
            } else {
                Some(self.categories@)
            },
            fill_value: self.fill_value,
        }
    }
}

impl Clone for BucketFractionResampler {
    fn clone(&self) -> (r: Self)
        ensures
            r@ == self@,
    {
        proof {
            use_type_invariant(self);
        }
        BucketFractionResampler {
            source: self.source.clone(),
            categories: copy_values(&self.categories),
            discover_categories: self.discover_categories,
            fill_value: self.fill_value,
        }
    }
}

impl BucketFractionResampler {
    #[verifier::type_invariant]
    closed spec fn inv(&self) -> bool {
        if self.discover_categories {
            self.categories@.len() == 0
        } else {
            categories_error(self.categories@) is None
        }
    }

    pub fn new(source: SwathDefinition, categories: Vec<F64>) -> (r: Result<Self>)
        ensures
            match categories_error(categories@) {
                Some(e) => fails_with(r, e),
                None => r is Ok && r->Ok_0@ == (BucketFractionView {
                    source: source@,
                    categories: Some(categories@),
                    fill_value: F64 { bits: NAN_BITS_64 },
                }),
            },
    {
        match validate_categories(&categories) {
            Ok(()) => {},
            Err(e) => {
                return Err(e);
            },
        }
        Ok(
            BucketFractionResampler {
                source,
                categories,
                discover_categories: false,
                fill_value: F64 { bits: NAN_BITS_64 },
            },
        )
    }

    pub fn auto_categories(source: SwathDefinition) -> (r: Self)
        ensures
            r@ == (BucketFractionView {
                source: source@,
                categories: None,
                fill_value: F64 { bits: NAN_BITS_64 },
            }),
    {
        BucketFractionResampler {
            source,
            categories: Vec::new(),
            discover_categories: true,
            fill_value: F64 { bits: NAN_BITS_64 },
        }
    }

    pub fn with_fill_value(self, fill_value: F64) -> (r: Self)
        ensures
            r@ == (BucketFractionView { fill_value, ..self@ }),
    {
        proof {
            use_type_invariant(&self);
        }
        BucketFractionResampler {
            source: self.source,
            categories: self.categories,
            discover_categories: self.discover_categories,
            fill_value,
        }
    }

    pub fn source(&self) -> (r: &SwathDefinition)
        ensures
            r@ == self@.source,
    {
        &self.source
    }

    /// The categories, or none where those that occur are taken.
    pub fn categories(&self) -> (r: &Vec<F64>)
        ensures
            r@ == match self@.categories {
                Some(c) => c,
                None => Seq::empty(),
            },
    {
        proof {
            use_type_invariant(self);
        }
        &self.categories
    }

    pub fn discovers_categories(&self) -> (r: bool)
        ensures
            r == (self@.categories is None),
    {
        self.discover_categories
    }

    pub fn name(&self) -> (r: &str)
        ensures
            r@ == "bucket_fraction"@,
    {
        "bucket_fraction"
    }

    /// A data set of fractions on an area.
    pub fn resample<L: Fn(F64, F64) -> (F64, F64), R: Fn(usize, usize) -> F64>(
        &self,
        dataset: &Dataset,
        destination: &AreaGrid,
        locate: &L,
        ratio: &R,
    ) -> (r: Result<Dataset>)
        requires
            grid_of(dataset@) is Some ==> is_plane(grid_of(dataset@)->Some_0),
            forall|a: F64, b: F64| #[trigger] locate.requires((a, b)),
            forall|p: usize, q: usize| #[trigger] ratio.requires((p, q)),
        ensures
            fraction_dataset_outcome(
                r,
                dataset@,
                self@,
                destination@,
                "bucket fraction resampling requires f64 dataset grid values"@,
                *locate,
                *ratio,
            ),
    {
        self.resample_data(
            dataset,
            destination,
            "bucket fraction resampling requires f64 dataset grid values",
            locate,
            ratio,
        )
    }

    /// A data set that is given away, as one of fractions on an area.
    pub fn resample_owned<L: Fn(F64, F64) -> (F64, F64), R: Fn(usize, usize) -> F64>(
        &self,
        dataset: Dataset,
        destination: &AreaGrid,
        locate: &L,
        ratio: &R,
    ) -> (r: Result<Dataset>)
        requires
            grid_of(dataset@) is Some ==> is_plane(grid_of(dataset@)->Some_0),
            forall|a: F64, b: F64| #[trigger] locate.requires((a, b)),
            forall|p: usize, q: usize| #[trigger] ratio.requires((p, q)),
        ensures
            fraction_dataset_outcome(
                r,
                dataset@,
                self@,
                destination@,
                "bucket fraction resampling requires an f64 dataset grid"@,
                *locate,
                *ratio,
            ),
    {
        self.resample_data(
            &dataset,
            destination,
            "bucket fraction resampling requires an f64 dataset grid",
            locate,
            ratio,
        )
    }

    fn resample_data<L: Fn(F64, F64) -> (F64, F64), R: Fn(usize, usize) -> F64>(
        &self,
        dataset: &Dataset,
        destination: &AreaGrid,
        absent: &str,
        locate: &L,
        ratio: &R,
    ) -> (r: Result<Dataset>)
        requires
            grid_of(dataset@) is Some ==> is_plane(grid_of(dataset@)->Some_0),
            forall|a: F64, b: F64| #[trigger] locate.requires((a, b)),
            forall|p: usize, q: usize| #[trigger] ratio.requires((p, q)),
        ensures
            fraction_dataset_outcome(
                r,
                dataset@,
                self@,
                destination@,
                absent@,
                *locate,
                *ratio,
            ),
    {
        let source_grid = match dataset.data() {
            Some(g) => g,
            None => {
                return Err(RustySatError::invalid_input(absent));
            },
        };
        let out = if self.discover_categories {
            resample_bucket_fraction_auto(
                source_grid,
                &self.source,
                destination,
                self.fill_value,
                locate,
                ratio,
            )
        } else {
            resample_bucket_fraction(
                source_grid,
                &self.source,
                destination,
                &self.categories,
                self.fill_value,
                locate,
                ratio,
            )
        };
        let ghost outcome = out;
        assert(fraction_resampled(
            outcome,
            source_grid@,
            self@,
            destination@,
            *locate,
            *ratio,
        ));
        match out {
            Ok(array) => Ok(
                Dataset::resampled_from(
                    dataset,
                    AnyDataArray::F64(array),
                    destination.area().id(),
                    "bucket_fraction",
                ),
            ),
            Err(e) => Err(e),
        }
    }
}

/// Whether `r` is the array of the fractions in the categories of a resampler, or the
/// first obstacle.
pub open spec fn fraction_resampled<
    L: Fn(F64, F64) -> (F64, F64),
    R: Fn(usize, usize) -> F64,
>(
    r: Result<DataArray<F64>>,
    a: ArrayView<F64>,
    resampler: BucketFractionView,
    g: AreaGridView,
    locate: L,
    ratio: R,
) -> bool {
    match resampler.categories {
        Some(c) => fraction_outcome(
            r,
            a,
            resampler.source,
            g,
            c,
            resampler.fill_value,
            locate,
            ratio,
        ),
        None => auto_fraction_outcome(
            r,
            a,
            resampler.source,
            g,
            resampler.fill_value,
            locate,
            ratio,
        ),
    }
}

/// Whether `r` is the data set of the fractions, or the first obstacle.
pub open spec fn fraction_dataset_outcome<
    L: Fn(F64, F64) -> (F64, F64),
    R: Fn(usize, usize) -> F64,
>(
    r: Result<Dataset>,
    d: DatasetView,
    resampler: BucketFractionView,
    g: AreaGridView,
    absent: Seq<char>,
    locate: L,
    ratio: R,
) -> bool {
    match grid_of(d) {
        None => is_invalid(r, absent),
        Some(a) => exists|array: Result<DataArray<F64>>| #[trigger]
            fraction_resampled(array, a, resampler, g, locate, ratio) && match array {
                Ok(p) => r is Ok && r->Ok_0@ == resampled(
                    d,
                    AnyArrayView::F64(p@),
                    g.area.id,
                    "bucket_fraction"@,
                ),
                Err(e) => fails_with(r, e@),
            },
    }
}

/// Whether a sample is in a category: it shows a value that equals the category, and none of
/// the categories before it.
pub open spec fn belongs(a: ArrayView<F64>, i: int, categories: Seq<F64>, c: int) -> bool {
    &&& has_value(a, i)
    &&& a.values[i].rank() == categories[c].rank()
    &&& forall|k: int| 0 <= k < c ==> (#[trigger] categories[k]).rank() != a.values[i].rank()
}

proof fn lemma_category_is_first(categories: Seq<F64>, v: F64, c: int)
    requires
        0 <= c < categories.len(),
        v.finite(),
        forall|k: int| 0 <= k < categories.len() ==> (#[trigger] categories[k]).finite(),
    ensures
        category_of(categories, v) == c <==> (v.rank() == categories[c].rank() && forall|k: int|
            0 <= k < c ==> (#[trigger] categories[k]).rank() != v.rank()),
    decreases categories.len(),
{
    let rest = categories.drop_first();
    assert(categories[0].finite());
    if c > 0 {
        assert forall|k: int| 0 <= k < rest.len() implies (#[trigger] rest[k]).finite() by {
            assert(categories[k + 1].finite());
        }
        lemma_category_is_first(rest, v, c - 1);
        assert(rest[c - 1] == categories[c]);
        if forall|k: int| 0 <= k < c ==> (#[trigger] categories[k]).rank() != v.rank() {
            assert forall|k: int| 0 <= k < c - 1 implies (#[trigger] rest[k]).rank() != v.rank() by {
                assert(categories[k + 1].rank() != v.rank());
            }
        }
        if forall|k: int| 0 <= k < c - 1 ==> (#[trigger] rest[k]).rank() != v.rank() {
            assert forall|k: int| 1 <= k < c implies (#[trigger] categories[k]).rank() != v.rank() by {
                assert(rest[k - 1].rank() != v.rank());
            }
        }
    } else {
        lemma_category_not_negative(rest, v);
    }
}

proof fn lemma_category_not_negative(categories: Seq<F64>, v: F64)
    ensures
        category_of(categories, v) >= 0,
    decreases categories.len(),
{
    if categories.len() > 0 {
        lemma_category_not_negative(categories.drop_first(), v);
    }
}

proof fn lemma_members(
    a: ArrayView<F64>,
    buckets: Seq<Option<usize>>,
    categories: Seq<F64>,
    n: int,
    b: int,
    c: int,
) -> (members: Seq<int>)
    requires
        0 <= n <= buckets.len(),
        n <= a.values.len(),
        a.mask is Some ==> a.mask->Some_0.len() == a.values.len(),
        0 <= c < categories.len(),
        forall|k: int| 0 <= k < categories.len() ==> (#[trigger] categories[k]).finite(),
    ensures
        members.len() == category_hits(a, buckets, categories, n, b, c),
        selects(
            members,
            members,
            n,
            |i: int| number_of(buckets[i]) == Some(b) && belongs(a, i, categories, c),
            |i: int| i,
        ),
    decreases n,
{
    let taken = |i: int| number_of(buckets[i]) == Some(b) && belongs(a, i, categories, c);
    let same = |i: int| i;
    if n == 0 {
        Seq::empty()
    } else {
        let before = lemma_members(a, buckets, categories, n - 1, b, c);
        lemma_selects_next(before, before, n - 1, taken, same);
        if has_value(a, n - 1) {
            lemma_category_is_first(categories, a.values[n - 1], c);
        }
        if taken(n - 1) {
            before.push(n - 1)
        } else {
            before
        }
    }
}

/// The numbers of the positions in a bucket.
proof fn lemma_hits_listed(buckets: Seq<Option<usize>>, n: int, b: int) -> (there: Seq<int>)
    requires
        0 <= n <= buckets.len(),
    ensures
        there.len() == hits(buckets, n, b),
        selects(there, there, n, |i: int| number_of(buckets[i]) == Some(b), |i: int| i),
    decreases n,
{
    let taken = |i: int| number_of(buckets[i]) == Some(b);
    let same = |i: int| i;
    if n == 0 {
        Seq::empty()
    } else {
        let before = lemma_hits_listed(buckets, n - 1, b);
        lemma_selects_next(before, before, n - 1, taken, same);
        if taken(n - 1) {
            before.push(n - 1)
        } else {
            before
        }
    }
}

/// Fractions by buckets: the value of category `c` in row `y` and column `x` is the ratio of
/// the number of the samples there that are in the category to the number of all samples
/// there, or the fill value where there are none.
pub proof fn lemma_fraction_is_fair<
    L: Fn(F64, F64) -> (F64, F64),
    R: Fn(usize, usize) -> F64,
>(
    r: Result<DataArray<F64>>,
    a: ArrayView<F64>,
    source: SwathView,
    g: AreaGridView,
    categories: Seq<F64>,
    fill: F64,
    locate: L,
    ratio: R,
    y: int,
    x: int,
    c: int,
) -> (out: (Seq<(F64, F64)>, Seq<int>, Seq<int>))
    requires
        fraction_outcome(r, a, source, g, categories, fill, locate, ratio),
        r is Ok,
        array_ok(a),
        is_plane(a),
        0 <= y < g.area.height,
        0 <= x < g.area.width,
        0 <= c < categories.len(),
    ensures
        ({
            let (places, there, members) = out;
            let n = a.values.len() as int;
            let size = g.area.height * g.area.width;
            let v = r->Ok_0@.values[c * size + y * g.area.width + x];
            &&& places.len() == n
            &&& forall|i: int|
                0 <= i < n ==> locate.ensures(
                    (source.lons->Some_0[i], source.lats->Some_0[i]),
                    #[trigger] places[i],
                )
            &&& selects(there, there, n, |i: int| lies_in(places[i], y, x), |i: int| i)
            &&& selects(
                members,
                members,
                n,
                |i: int| lies_in(places[i], y, x) && belongs(a, i, categories, c),
                |i: int| i,
            )
            &&& r->Ok_0@.values.len() == categories.len() * size
            &&& r->Ok_0@.dims == seq!["categories"@, "y"@, "x"@]
            &&& r->Ok_0@.shape == seq![categories.len() as usize, g.area.height, g.area.width]
            &&& r->Ok_0@.mask is None
            &&& r->Ok_0@.coords["categories"@].values == categories
            &&& if there.len() == 0 {
                v == fill
            } else {
                ratio.ensures((members.len() as usize, there.len() as usize), v)
            }
        }),
{
    let buckets = choose|buckets: Seq<Option<usize>>| #[trigger]
        are_buckets(source, g, locate, buckets) && r is Ok && has_fractions(
            r->Ok_0@,
            a,
            g,
            buckets,
            categories,
            fill,
            ratio,
        );
    lemma_plane_len(a);
    lemma_fraction_names();
    lemma_pixel_inside(y, x, g.area.height as int, g.area.width as int);
    let size = g.area.height * g.area.width;
    let b = y * g.area.width + x;
    let n = a.values.len() as int;
    assert forall|k: int| 0 <= k < categories.len() implies (#[trigger] categories[k]).finite() by {
        assert(categories_error(categories) is None);
    }
    let places = lemma_places(source, g, locate, buckets, y, x);
    let members = lemma_members(a, buckets, categories, n, b, c);
    let there = lemma_hits_listed(buckets, n, b);
    lemma_selects_renamed(
        members,
        members,
        n,
        |i: int| number_of(buckets[i]) == Some(b) && belongs(a, i, categories, c),
        |i: int| lies_in(places[i], y, x) && belongs(a, i, categories, c),
        |i: int| i,
    );
    lemma_selects_renamed(
        there,
        there,
        n,
        |i: int| number_of(buckets[i]) == Some(b),
        |i: int| lies_in(places[i], y, x),
        |i: int| i,
    );
    assert(fraction_at(a, buckets, categories, size, b, c, fill, ratio, r->Ok_0@.values));
    assert(c * size + b == c * size + y * g.area.width + x);
    (places, there, members)
}

/// Fractions by buckets are taken exactly where the plane has the shape of the swath, the target
/// is one by longitude and latitude, the swath has longitudes, and there are categories, all of
/// them finite.
pub proof fn lemma_fraction_accepts<
    L: Fn(F64, F64) -> (F64, F64),
    R: Fn(usize, usize) -> F64,
>(
    r: Result<DataArray<F64>>,
    a: ArrayView<F64>,
    source: SwathView,
    g: AreaGridView,
    categories: Seq<F64>,
    fill: F64,
    locate: L,
    ratio: R,
)
    requires
        fraction_outcome(r, a, source, g, categories, fill, locate, ratio),
        array_ok(a),
        is_plane(a),
    ensures
        r is Ok <==> {
            &&& a.shape == seq![source.height, source.width]
            &&& by_lonlat(g.area.projection)
            &&& source.lons is Some
            &&& categories.len() > 0
            &&& forall|i: int| 0 <= i < categories.len() ==> (#[trigger] categories[i]).finite()
        },
{
    lemma_plane_len(a);
    lemma_by_lonlat(
        g.area.projection,
        "bucket resampling without lon/lat destination projection metadata"@,
        "bucket resampling to non-lon/lat destination area"@,
    );
    if plane_size(a) == (source.height, source.width) {
        assert(a.shape =~= seq![source.height, source.width]);
    }
}

/// Whether categories are the values that a plane shows, each once and in ascending order.
pub open spec fn lists_shown(c: Seq<F64>, a: ArrayView<F64>) -> bool {
    &&& forall|j: int, k: int|
        0 <= j < k < c.len() ==> (#[trigger] c[j]).rank() < (#[trigger] c[k]).rank()
    &&& forall|i: int|
        0 <= i < a.values.len() && #[trigger] has_value(a, i) ==> exists|k: int|
            0 <= k < c.len() && (#[trigger] c[k]).rank() == a.values[i].rank()
    &&& forall|k: int| 0 <= k < c.len() ==> is_shown(a, #[trigger] c[k])
}

/// Whether some pixel of a plane shows a value.
pub open spec fn is_shown(a: ArrayView<F64>, v: F64) -> bool {
    exists|i: int| 0 <= i < a.values.len() && #[trigger] has_value(a, i) && a.values[i] == v
}

/// The categories that are found are the values that a plane shows.
pub proof fn lemma_found_categories(a: ArrayView<F64>, c: Seq<F64>)
    requires
        array_ok(a),
        are_categories(a, a.values.len() as int, c),
    ensures
        lists_shown(c, a),
{
    assert forall|j: int, k: int| 0 <= j < k < c.len() implies (#[trigger] c[j]).rank() < (
    #[trigger] c[k]).rank() by {
        assert(c[j].less(c[k]));
    }
    assert forall|i: int| 0 <= i < a.values.len() && #[trigger] has_value(a, i) implies exists|
        k: int,
    | 0 <= k < c.len() && (#[trigger] c[k]).rank() == a.values[i].rank() by {
        assert(counts(a.values, a.mask, i));
        assert(has_category(c, a.values[i]));
        let k = choose|k: int|
            0 <= k < c.len() && (#[trigger] c[k]).same_number(a.values[i])
                && c[k].total_rank() <= a.values[i].total_rank();
        assert(c[k].rank() == a.values[i].rank());
    }
    assert forall|k: int| 0 <= k < c.len() implies is_shown(a, #[trigger] c[k]) by {
        assert(occurs(a, a.values.len() as int, c[k]));
        let i = choose|i: int|
            0 <= i < a.values.len() && #[trigger] counts(a.values, a.mask, i)
                && a.values[i] == c[k];
        assert(has_value(a, i));
    }
}

/// Fractions of a data set: it is on the area of the target, and its array is that of the
/// fractions of its grid, in the given categories or in those that it shows, each once and in
/// ascending order.
pub proof fn lemma_fraction_dataset<
    L: Fn(F64, F64) -> (F64, F64),
    R: Fn(usize, usize) -> F64,
>(
    r: Result<Dataset>,
    d: DatasetView,
    resampler: BucketFractionView,
    g: AreaGridView,
    absent: Seq<char>,
    locate: L,
    ratio: R,
) -> (out: (Result<DataArray<F64>>, Seq<F64>))
    requires
        fraction_dataset_outcome(r, d, resampler, g, absent, locate, ratio),
        r is Ok,
        d.array matches Some(AnyArrayView::F64(a)) ==> array_ok(a),
    ensures
        d.array is Some && d.array->Some_0 is F64,
        out.0 is Ok,
        fraction_outcome(
            out.0,
            d.array->Some_0->F64_0,
            resampler.source,
            g,
            out.1,
            resampler.fill_value,
            locate,
            ratio,
        ),
        resampler.categories is Some ==> out.1 == resampler.categories->Some_0,
        resampler.categories is None ==> lists_shown(out.1, d.array->Some_0->F64_0),
        r->Ok_0@.array == Some(AnyArrayView::F64(out.0->Ok_0@)),
        is_on_area(r->Ok_0@, d, g, "bucket_fraction"@),
{
    let a = grid_of(d)->Some_0;
    let array = choose|array: Result<DataArray<F64>>| #[trigger]
        fraction_resampled(array, a, resampler, g, locate, ratio) && match array {
            Ok(p) => r is Ok && r->Ok_0@ == resampled(
                d,
                AnyArrayView::F64(p@),
                g.area.id,
                "bucket_fraction"@,
            ),
            Err(e) => fails_with(r, e@),
        };
    lemma_resampled(d, AnyArrayView::F64(array->Ok_0@), g, "bucket_fraction"@);
    match resampler.categories {
        Some(c) => (array, c),
        None => {
            let c = choose|categories: Seq<F64>| #[trigger]
                are_categories(a, a.values.len() as int, categories) && fraction_outcome(
                    array,
                    a,
                    resampler.source,
                    g,
                    categories,
                    resampler.fill_value,
                    locate,
                    ratio,
                );
            lemma_found_categories(a, c);
            (array, c)
        },
    }
}

} // verus!
