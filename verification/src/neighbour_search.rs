//! The search for the neighbours of target pixels.

use crate::area::{area_grid_ok, AreaGrid, AreaGridView};
use crate::array::count_set;
use crate::error::{fails_with, ErrorView, Result, RustySatError};
use crate::nearest::{by_lonlat, lemma_by_lonlat, nearest_source_pixel, outside, pixel_near};
use crate::neighbour::{
    count_flags, lemma_set_listed, lemma_set_positions, lists_set, reduced_numbers, source_to_reduced_index, NeighbourInfo,
    NeighbourView,
};
use crate::number::{F64, INFINITE_64};
use crate::rounding::{
    apart, is_reached, lemma_order_of_whole, lemma_place_is_nearest, reaches,
};
use crate::spatial_index::{
    is_distance, is_limit, is_nearest, measures_ok, nearest_found, not_worse, KdPointIndex2D,
    NearestPoint, Point2D,
};
use crate::swath::{SwathDefinition, SwathView};
use crate::text::{contains_text, has_part};
use crate::text_map::TextMap;
use vstd::prelude::*;

verus! {

/// Whether a distance lies within a radius.
pub open spec fn within(radius: Option<F64>, d: F64) -> bool {
    match radius {
        Some(r) => d.at_most(r),
        None => true,
    }
}

/// Whether the candidate `(a, i)` comes before `(b, j)`: by the distance in the total
/// order, then by the number.
pub open spec fn sooner(a: F64, i: int, b: F64, j: int) -> bool {
    a.total_rank() < b.total_rank() || (a.total_rank() == b.total_rank() && i < j)
}

/// Whether `list` holds the first `n` of the candidates within the radius, in order.
pub open spec fn first_candidates(
    list: Seq<(usize, F64)>,
    distances: Seq<F64>,
    radius: Option<F64>,
    n: nat,
) -> bool {
    &&& list.len() <= n
    &&& forall|k: int|
        0 <= k < list.len() ==> (#[trigger] list[k]).0 < distances.len() && list[k].1
            == distances[list[k].0 as int] && within(radius, list[k].1)
    &&& forall|j: int, k: int|
        0 <= j < k < list.len() ==> sooner(
            (#[trigger] list[j]).1,
            list[j].0 as int,
            (#[trigger] list[k]).1,
            list[k].0 as int,
        )
    &&& forall|i: int|
        0 <= i < distances.len() && within(radius, #[trigger] distances[i]) ==> is_listed(list, i)
            || (list.len() == n && forall|k: int|
            0 <= k < list.len() ==> sooner(
                (#[trigger] list[k]).1,
                list[k].0 as int,
                distances[i],
                i,
            ))
}

/// Whether the candidate `i` is in the list.
pub open spec fn is_listed(list: Seq<(usize, F64)>, i: int) -> bool {
    exists|k: int| 0 <= k < list.len() && (#[trigger] list[k]).0 == i
}

fn is_within(radius: Option<F64>, d: F64) -> (r: bool)
    ensures
        r == within(radius, d),
{
    match radius {
        Some(limit) => d.le(limit),
        None => true,
    }
}

fn is_sooner(a: F64, i: usize, b: F64, j: usize) -> (r: bool)
    ensures
        r == sooner(a, i as int, b, j as int),
{
    if a.totally_before(b) {
        true
    } else if b.totally_before(a) {
        false
    } else {
        i < j
    }
}

/// The next candidate behind the last one of the list.
fn next_candidate(distances: &Vec<F64>, radius: Option<F64>, last: Option<(usize, F64)>) -> (r:
    Option<(usize, F64)>)
    ensures
        r is Some ==> {
            &&& r->Some_0.0 < distances@.len()
            &&& r->Some_0.1 == distances@[r->Some_0.0 as int]
            &&& within(radius, r->Some_0.1)
            &&& last is Some ==> sooner(
                last->Some_0.1,
                last->Some_0.0 as int,
                r->Some_0.1,
                r->Some_0.0 as int,
            )
        },
        forall|i: int|
            0 <= i < distances@.len() && within(radius, #[trigger] distances@[i]) && (last is Some
                ==> sooner(last->Some_0.1, last->Some_0.0 as int, distances@[i], i)) ==> r is Some
                && (r->Some_0.0 == i || sooner(
                r->Some_0.1,
                r->Some_0.0 as int,
                distances@[i],
                i,
            )),
{
    let mut best: Option<(usize, F64)> = None;
    let mut i: usize = 0;
    while i < distances.len()
        invariant
            i <= distances@.len(),
            best is Some ==> {
                &&& best->Some_0.0 < distances@.len()
                &&& best->Some_0.1 == distances@[best->Some_0.0 as int]
                &&& within(radius, best->Some_0.1)
                &&& last is Some ==> sooner(
                    last->Some_0.1,
                    last->Some_0.0 as int,
                    best->Some_0.1,
                    best->Some_0.0 as int,
                )
            },
            forall|j: int|
                0 <= j < i && within(radius, #[trigger] distances@[j]) && (last is Some ==> sooner(
                    last->Some_0.1,
                    last->Some_0.0 as int,
                    distances@[j],
                    j,
                )) ==> best is Some && (best->Some_0.0 == j || sooner(
                    best->Some_0.1,
                    best->Some_0.0 as int,
                    distances@[j],
                    j,
                )),
        decreases distances@.len() - i,
    {
        let d = distances[i];
        let behind = match last {
            Some(l) => is_sooner(l.1, l.0, d, i),
            None => true,
        };
        if is_within(radius, d) && behind {
            let better = match best {
                Some(b) => is_sooner(d, i, b.1, b.0),
                None => true,
            };
            if better {
                best = Some((i, d));
            }
        }
        i = i + 1;
    }
    best
}

/// The nearest candidates within a radius, at most `neighbours`, nearest first and by
/// their numbers where they are equally near.
pub fn nearest_candidates(distances: &Vec<F64>, radius: Option<F64>, neighbours: usize) -> (r: Vec<
    (usize, F64),
>)
    ensures
        first_candidates(r@, distances@, radius, neighbours as nat),
{
    let mut list: Vec<(usize, F64)> = Vec::new();
    let mut done = false;
    while list.len() < neighbours && !done
        invariant
            list@.len() <= neighbours,
            forall|k: int|
                0 <= k < list@.len() ==> (#[trigger] list@[k]).0 < distances@.len() && list@[k].1
                    == distances@[list@[k].0 as int] && within(radius, list@[k].1),
            forall|j: int, k: int|
                0 <= j < k < list@.len() ==> sooner(
                    (#[trigger] list@[j]).1,
                    list@[j].0 as int,
                    (#[trigger] list@[k]).1,
                    list@[k].0 as int,
                ),
            forall|i: int|
                0 <= i < distances@.len() && within(radius, #[trigger] distances@[i]) ==> is_listed(
                    list@,
                    i,
                ) || (!done && forall|k: int|
                    0 <= k < list@.len() ==> sooner(
                        (#[trigger] list@[k]).1,
                        list@[k].0 as int,
                        distances@[i],
                        i,
                    )),
        decreases neighbours - list@.len(), !done as int,
    {
        let last: Option<(usize, F64)> = if list.len() > 0 {
            Some(list[list.len() - 1])
        } else {
            None
        };
        let ghost before = list@;
        match next_candidate(distances, radius, last) {
            Some(c) => {
                list.push(c);
                proof {
                    assert forall|i: int|
                        0 <= i < distances@.len() && within(
                            radius,
                            #[trigger] distances@[i],
                        ) implies is_listed(list@, i) || forall|k: int|
                        0 <= k < list@.len() ==> sooner(
                            (#[trigger] list@[k]).1,
                            list@[k].0 as int,
                            distances@[i],
                            i,
                        ) by {
                        if is_listed(before, i) {
                            let k = choose|k: int| 0 <= k < before.len() && (#[trigger] before[k]).0 == i;
                            assert(list@[k].0 == i);
                        } else {
                            if before.len() > 0 {
                                assert(sooner(
                                    before[before.len() - 1].1,
                                    before[before.len() - 1].0 as int,
                                    distances@[i],
                                    i,
                                ));
                            }
                            if c.0 == i {
                                assert(list@[before.len() as int].0 == i);
                            }
                        }
                    }
                }
            },
            None => {
                proof {
                    assert forall|i: int|
                        0 <= i < distances@.len() && within(
                            radius,
                            #[trigger] distances@[i],
                        ) implies is_listed(list@, i) by {
                        if !is_listed(list@, i) && before.len() > 0 {
                            assert(sooner(
                                before[before.len() - 1].1,
                                before[before.len() - 1].0 as int,
                                distances@[i],
                                i,
                            ));
                        }
                    }
                }
                done = true;
            },
        }
    }
    list
}

/// Whether `all` are the distances of the pixels of an area from a position.
pub open spec fn are_gaps<D: Fn(F64, F64, F64, F64) -> F64>(
    source: AreaGridView,
    x: F64,
    y: F64,
    distance: D,
    all: Seq<F64>,
) -> bool {
    &&& all.len() == source.area.height * source.area.width
    &&& forall|i: int|
        0 <= i < all.len() ==> distance.ensures(
            (pixel_lon(source, i), pixel_lat(source, i), x, y),
            #[trigger] all[i],
        )
}

/// Whether `list` holds the source pixel nearest to a place, with its distance from a
/// position, where it lies within the radius.
pub open spec fn is_single<D: Fn(F64, F64, F64, F64) -> F64>(
    list: Seq<(usize, F64)>,
    source: AreaGridView,
    x: F64,
    y: F64,
    place: (F64, F64),
    radius: Option<F64>,
    distance: D,
) -> bool {
    match pixel_near(place, source.area.height, source.area.width) {
        Some((row, column)) => exists|d: F64| #[trigger]
            distance.ensures((source.x[column as int], source.y[row as int], x, y), d) && list
                == if outside(radius, d) {
                Seq::<(usize, F64)>::empty()
            } else {
                seq![((row * source.area.width + column) as usize, d)]
            },
        None => list == Seq::<(usize, F64)>::empty(),
    }
}

/// Whether `list` holds the neighbours of a position among the pixels of an area. A
/// single neighbour is the pixel nearest to the place that `locate` gives for the
/// position; more are the nearest by the distances of all pixels.
pub open spec fn area_candidates<
    L: Fn(F64, F64) -> (F64, F64),
    D: Fn(F64, F64, F64, F64) -> F64,
>(
    list: Seq<(usize, F64)>,
    source: AreaGridView,
    x: F64,
    y: F64,
    radius: Option<F64>,
    neighbours: usize,
    locate: L,
    distance: D,
) -> bool {
    if neighbours == 1 {
        exists|place: (F64, F64)| #[trigger]
            locate.ensures((x, y), place) && is_single(list, source, x, y, place, radius, distance)
    } else {
        exists|all: Seq<F64>| #[trigger]
            are_gaps(source, x, y, distance, all) && first_candidates(
                list,
                all,
                radius,
                neighbours as nat,
            )
    }
}

/// Whether the entries of a target pixel are those of a list, filled up with the number
/// and the distance that stand for no neighbour.
pub open spec fn entries_from(
    v: NeighbourView,
    at: int,
    list: Seq<(usize, F64)>,
    missing: usize,
) -> bool {
    forall|k: int|
        0 <= k < v.neighbours ==> (#[trigger] v.index[at * v.neighbours + k], v.distance[at
            * v.neighbours + k]) == if k < list.len() {
            list[k]
        } else {
            (missing, F64 { bits: INFINITE_64 })
        }
}

/// A list of flags that are all set.
pub open spec fn all_set(n: nat) -> Seq<bool> {
    Seq::new(n, |i: int| true)
}

fn set_flags(n: usize) -> (r: Vec<bool>)
    ensures
        r@ == all_set(n as nat),
{
    let mut out: Vec<bool> = Vec::new();
    let mut i: usize = 0;
    while i < n
        invariant
            i <= n,
            out@.len() == i,
            forall|j: int| 0 <= j < i ==> out@[j],
        decreases n - i,
    {
        out.push(true);
        i = i + 1;
    }
    assert(out@ =~= all_set(n as nat));
    out
}

proof fn lemma_all_set(n: nat)
    ensures
        count_set(all_set(n)) == n,
    decreases n,
{
    if n > 0 {
        lemma_all_set((n - 1) as nat);
        assert(all_set(n).drop_last() =~= all_set((n - 1) as nat));
    }
}

/// The error with which the search for neighbours between two areas is refused, if it is.
pub open spec fn area_search_error(
    source: AreaGridView,
    target: AreaGridView,
    radius: Option<F64>,
    neighbours: usize,
) -> Option<ErrorView> {
    if neighbours == 0 {
        Some(ErrorView::InvalidInput("neighbour count must be non-zero"@))
    } else if radius is Some && radius->Some_0.less(F64 { bits: 0 }) {
        Some(ErrorView::InvalidInput("radius_of_influence must be non-negative"@))
    } else if source.area.projection != target.area.projection {
        Some(ErrorView::Unsupported("area neighbour info between different projections"@))
    } else {
        None
    }
}

/// The distances of the pixels of an area from a position.
fn gaps_from<D: Fn(F64, F64, F64, F64) -> F64>(source: &AreaGrid, x: F64, y: F64, distance: &D) -> (r:
    Vec<F64>)
    requires
        forall|a: F64, b: F64, c: F64, d: F64| #[trigger] distance.requires((a, b, c, d)),
    ensures
        are_gaps(source@, x, y, *distance, r@),
{
    proof {
        use_type_invariant(source);
    }
    let (height, width) = source.shape();
    let size: usize = height * width;
    let ghost g = source@;
    let mut all: Vec<F64> = Vec::new();
    let mut i: usize = 0;
    while i < size
        invariant
            i <= size,
            size == g.area.height * g.area.width,
            g == source@,
            area_grid_ok(g),
            width == g.area.width,
            forall|a: F64, b: F64, c: F64, d: F64| #[trigger] distance.requires((a, b, c, d)),
            all@.len() == i,
            forall|j: int|
                0 <= j < i ==> distance.ensures(
                    (pixel_lon(g, j), pixel_lat(g, j), x, y),
                    #[trigger] all@[j],
                ),
        decreases size - i,
    {
        proof {
            assert(i % width < width && i / width < g.area.height) by (nonlinear_arith)
                requires
                    i < g.area.height * width,
                    width > 0,
            ;
        }
        let d = distance(source.x()[i % width], source.y()[i / width], x, y);
        assert(distance.ensures((pixel_lon(g, i as int), pixel_lat(g, i as int), x, y), d));
        all.push(d);
        i = i + 1;
    }
    all
}

/// The neighbours of a position.
fn area_neighbours<L: Fn(F64, F64) -> (F64, F64), D: Fn(F64, F64, F64, F64) -> F64>(
    source: &AreaGrid,
    x: F64,
    y: F64,
    radius: Option<F64>,
    neighbours: usize,
    locate: &L,
    distance: &D,
) -> (r: Vec<(usize, F64)>)
    requires
        forall|a: F64, b: F64| #[trigger] locate.requires((a, b)),
        forall|a: F64, b: F64, c: F64, d: F64| #[trigger] distance.requires((a, b, c, d)),
    ensures
        area_candidates(r@, source@, x, y, radius, neighbours, *locate, *distance),
{
    proof {
        use_type_invariant(source);
    }
    if neighbours != 1 {
        let all = gaps_from(source, x, y, distance);
        assert(are_gaps(source@, x, y, *distance, all@));
        return nearest_candidates(&all, radius, neighbours);
    }
    let (height, width) = source.shape();
    let place = locate(x, y);
    let mut list: Vec<(usize, F64)> = Vec::new();
    match nearest_source_pixel(place, height, width) {
        Some((row, column)) => {
            assert(0 <= row * width && row * width + column < height * width) by (nonlinear_arith)
                requires
                    row < height,
                    column < width,
            ;
            let d = distance(source.x()[column], source.y()[row], x, y);
            let outside = match radius {
                Some(limit) => limit.lt(d),
                None => false,
            };
            if !outside {
                list.push((row * width + column, d));
                assert(list@ =~= seq![((row * width + column) as usize, d)]);
            } else {
                assert(list@ =~= Seq::empty());
            }
            assert(distance.ensures(
                (source@.x[column as int], source@.y[row as int], x, y),
                d,
            ));
        },
        None => {
            assert(list@ =~= Seq::empty());
        },
    }
    assert(locate.ensures((x, y), place));
    assert(is_single(list@, source@, x, y, place, radius, *distance));
    list
}

/// The neighbours of the pixels of a target area among those of a source area, which
/// must have the same projection. `locate` gives the column and the row of a position
/// among the source pixels, `distance` the distance of two positions.
pub fn get_area_neighbour_info_with_neighbours<
    L: Fn(F64, F64) -> (F64, F64),
    D: Fn(F64, F64, F64, F64) -> F64,
>(
    source: &AreaGrid,
    target: &AreaGrid,
    radius_of_influence: Option<F64>,
    neighbours: usize,
    locate: &L,
    distance: &D,
) -> (r: Result<NeighbourInfo>)
    requires
        (target@.area.height * target@.area.width) * neighbours <= usize::MAX,
        forall|a: F64, b: F64| #[trigger] locate.requires((a, b)),
        forall|a: F64, b: F64, c: F64, d: F64| #[trigger] distance.requires((a, b, c, d)),
    ensures
        match area_search_error(source@, target@, radius_of_influence, neighbours) {
            Some(e) => fails_with(r, e),
            None => r is Ok && area_found(
                r->Ok_0@,
                source@,
                target@,
                radius_of_influence,
                neighbours,
                *locate,
                *distance,
            ),
        },
{
    proof {
        use_type_invariant(source);
        use_type_invariant(target);
    }
    if neighbours == 0 {
        return Err(RustySatError::invalid_input("neighbour count must be non-zero"));
    }
    match radius_of_influence {
        Some(radius) => {
            if radius.lt(F64 { bits: 0 }) {
                return Err(
                    RustySatError::invalid_input("radius_of_influence must be non-negative"),
                );
            }
        },
        None => {},
    }
    if !source.area().projection().same_as(target.area().projection()) {
        return Err(
            RustySatError::unsupported("area neighbour info between different projections"),
        );
    }
    let (source_height, source_width) = source.shape();
    let (target_height, target_width) = target.shape();
    let source_size: usize = source_height * source_width;
    let target_size: usize = target_height * target_width;
    let mut index_array: Vec<usize> = Vec::new();
    let mut distance_array: Vec<F64> = Vec::new();
    let missing: usize = source_size;
    let ghost g = target@;
    let mut t: usize = 0;
    let ghost mut lists: Seq<Seq<(usize, F64)>> = Seq::empty();
    assert(0 * neighbours == 0) by (nonlinear_arith);
    while t < target_size
        invariant
            t <= target_size,
            neighbours > 0,
            target_size * neighbours <= usize::MAX,
            target_size == g.area.height * g.area.width,
            target_width == g.area.width,
            g == target@,
            area_grid_ok(g),
            forall|a: F64, b: F64| #[trigger] locate.requires((a, b)),
            forall|a: F64, b: F64, c: F64, d: F64| #[trigger] distance.requires((a, b, c, d)),
            lists.len() == t,
            index_array@.len() == t * neighbours,
            distance_array@.len() == t * neighbours,
            forall|u: int|
                0 <= u < t ==> area_candidates(
                    #[trigger] lists[u],
                    source@,
                    pixel_lon(g, u),
                    pixel_lat(g, u),
                    radius_of_influence,
                    neighbours,
                    *locate,
                    *distance,
                ),
            forall|u: int, k: int|
                0 <= u < t && 0 <= k < neighbours ==> (
                    index_array@[u * neighbours + k],
                    #[trigger] distance_array@[u * neighbours + k],
                ) == if k < lists[u].len() {
                    lists[u][k]
                } else {
                    (missing, F64 { bits: INFINITE_64 })
                },
        decreases target_size - t,
    {
        proof {
            assert(t % target_width < target_width && t / target_width < g.area.height)
                by (nonlinear_arith)
                requires
                    t < g.area.height * target_width,
                    target_width > 0,
            ;
        }
        let x = target.x()[t % target_width];
        let y = target.y()[t / target_width];
        assert(x == pixel_lon(g, t as int) && y == pixel_lat(g, t as int));
        let list = area_neighbours(
            source,
            x,
            y,
            radius_of_influence,
            neighbours,
            locate,
            distance,
        );
        let mut k: usize = 0;
        let ghost base = t * neighbours;
        proof {
            assert(base + neighbours == (t + 1) * neighbours && (t + 1) * neighbours <= target_size
                * neighbours && 0 <= base) by (nonlinear_arith)
                requires
                    base == t * neighbours,
                    t < target_size,
            ;
        }
        let ghost index_before = index_array@;
        let ghost distance_before = distance_array@;
        while k < neighbours
            invariant
                k <= neighbours,
                base + neighbours <= usize::MAX,
                index_before.len() == base,
                distance_before.len() == base,
                index_array@.len() == base + k,
                distance_array@.len() == base + k,
                forall|i: int| 0 <= i < base ==> index_array@[i] == index_before[i],
                forall|i: int| 0 <= i < base ==> distance_array@[i] == distance_before[i],
                forall|j: int|
                    0 <= j < k ==> (index_array@[base + j], #[trigger] distance_array@[base + j])
                        == if j < list@.len() {
                        list@[j]
                    } else {
                        (missing, F64 { bits: INFINITE_64 })
                    },
            decreases neighbours - k,
        {
            if k < list.len() {
                let c = list[k];
                index_array.push(c.0);
                distance_array.push(c.1);
            } else {
                index_array.push(missing);
                distance_array.push(F64 { bits: INFINITE_64 });
            }
            k = k + 1;
        }
        proof {
            let old_lists = lists;
            lists = lists.push(list@);
            assert forall|u: int, j: int| 0 <= u < t + 1 && 0 <= j < neighbours implies (
                index_array@[u * neighbours + j],
                #[trigger] distance_array@[u * neighbours + j],
            ) == if j < lists[u].len() {
                lists[u][j]
            } else {
                (missing, F64 { bits: INFINITE_64 })
            } by {
                if u < t {
                    assert(0 <= u * neighbours + j < base) by (nonlinear_arith)
                        requires
                            0 <= u < t,
                            0 <= j < neighbours,
                            base == t * neighbours,
                    ;
                    assert(distance_before[u * neighbours + j] == distance_array@[u * neighbours
                        + j]);
                    assert(lists[u] == old_lists[u]);
                } else {
                    assert(u * neighbours == base);
                    assert(distance_array@[base + j] == distance_array@[u * neighbours + j]);
                }
            }
        }
        t = t + 1;
    }
    proof {
        lemma_all_set(source_size as nat);
        lemma_all_set(target_size as nat);
    }
    let r = NeighbourInfo::new(
        source_size,
        target_size,
        neighbours,
        set_flags(source_size),
        set_flags(target_size),
        index_array,
        distance_array,
    );
    proof {
        let v = r->Ok_0@;
        assert forall|u: int| 0 <= u < target_size implies #[trigger] has_area_entries(
            v,
            u,
            source@,
            target@,
            radius_of_influence,
            neighbours,
            *locate,
            *distance,
        ) by {
            assert(area_candidates(
                lists[u],
                source@,
                pixel_lon(g, u),
                pixel_lat(g, u),
                radius_of_influence,
                neighbours,
                *locate,
                *distance,
            ));
            assert forall|k: int| 0 <= k < v.neighbours implies (
                #[trigger] v.index[u * v.neighbours + k],
                v.distance[u * v.neighbours + k],
            ) == if k < lists[u].len() {
                lists[u][k]
            } else {
                (missing, F64 { bits: INFINITE_64 })
            } by {
                assert(distance_array@[u * neighbours + k] == v.distance[u * v.neighbours + k]);
            }
            assert(entries_from(v, u, lists[u], missing));
        }
    }
    r
}

/// Whether the entries of the target pixel `u` are its neighbours.
pub open spec fn has_area_entries<
    L: Fn(F64, F64) -> (F64, F64),
    D: Fn(F64, F64, F64, F64) -> F64,
>(
    v: NeighbourView,
    u: int,
    source: AreaGridView,
    target: AreaGridView,
    radius: Option<F64>,
    neighbours: usize,
    locate: L,
    distance: D,
) -> bool {
    exists|list: Seq<(usize, F64)>|
        area_candidates(
            list,
            source,
            pixel_lon(target, u),
            pixel_lat(target, u),
            radius,
            neighbours,
            locate,
            distance,
        ) && #[trigger] entries_from(v, u, list, v.source_size)
}

/// Whether `v` holds the neighbours of all target pixels. All pixels are valid.
pub open spec fn area_found<
    L: Fn(F64, F64) -> (F64, F64),
    D: Fn(F64, F64, F64, F64) -> F64,
>(
    v: NeighbourView,
    source: AreaGridView,
    target: AreaGridView,
    radius: Option<F64>,
    neighbours: usize,
    locate: L,
    distance: D,
) -> bool {
    &&& v.source_size == source.area.height * source.area.width
    &&& v.target_size == target.area.height * target.area.width
    &&& v.neighbours == neighbours
    &&& v.valid_input == all_set(v.source_size as nat)
    &&& v.valid_output == all_set(v.target_size as nat)
    &&& v.index.len() == v.target_size * neighbours
    &&& forall|u: int|
        0 <= u < v.target_size ==> #[trigger] has_area_entries(
            v,
            u,
            source,
            target,
            radius,
            neighbours,
            locate,
            distance,
        )
}

/// The nearest source pixel of each target pixel.
pub fn get_area_neighbour_info<
    L: Fn(F64, F64) -> (F64, F64),
    D: Fn(F64, F64, F64, F64) -> F64,
>(
    source: &AreaGrid,
    target: &AreaGrid,
    radius_of_influence: Option<F64>,
    locate: &L,
    distance: &D,
) -> (r: Result<NeighbourInfo>)
    requires
        forall|a: F64, b: F64| #[trigger] locate.requires((a, b)),
        forall|a: F64, b: F64, c: F64, d: F64| #[trigger] distance.requires((a, b, c, d)),
    ensures
        match area_search_error(source@, target@, radius_of_influence, 1) {
            Some(e) => fails_with(r, e),
            None => r is Ok && area_found(
                r->Ok_0@,
                source@,
                target@,
                radius_of_influence,
                1,
                *locate,
                *distance,
            ),
        },
{
    proof {
        use_type_invariant(target);
    }
    get_area_neighbour_info_with_neighbours(
        source,
        target,
        radius_of_influence,
        1,
        locate,
        distance,
    )
}

/// The largest longitude, 180 degrees, and the smallest one.
pub const EAST_END: u64 = 0x4066_8000_0000_0000;

pub const WEST_END: u64 = 0xc066_8000_0000_0000;

/// The largest latitude, 90 degrees, and the smallest one.
pub const NORTH_END: u64 = 0x4056_8000_0000_0000;

pub const SOUTH_END: u64 = 0xc056_8000_0000_0000;

/// Whether a position lies on the globe.
pub open spec fn valid_lonlat(lon: F64, lat: F64) -> bool {
    &&& F64 { bits: WEST_END }.at_most(lon)
    &&& lon.at_most(F64 { bits: EAST_END })
    &&& F64 { bits: SOUTH_END }.at_most(lat)
    &&& lat.at_most(F64 { bits: NORTH_END })
}

pub fn is_valid_lonlat(lon: F64, lat: F64) -> (r: bool)
    ensures
        r == valid_lonlat(lon, lat),
        r ==> lon.finite() && lat.finite(),
{
    F64 { bits: WEST_END }.le(lon) && lon.le(F64 { bits: EAST_END }) && F64 {
        bits: SOUTH_END,
    }.le(lat) && lat.le(F64 { bits: NORTH_END })
}

/// The error with which an area is refused whose projection is not one by longitude and
/// latitude, if it is.
pub open spec fn lonlat_area_error(projection: Map<Seq<char>, Seq<char>>) -> Option<ErrorView> {
    if !projection.contains_key("proj"@) && !projection.contains_key("proj4"@) {
        Some(
            ErrorView::Unsupported(
                "swath neighbour info without lon/lat destination projection metadata"@,
            ),
        )
    } else {
        let proj = if projection.contains_key("proj"@) {
            projection["proj"@]
        } else {
            projection["proj4"@]
        };
        if has_part(proj, "latlong"@) || has_part(proj, "longlat"@) {
            None
        } else {
            Some(ErrorView::Unsupported("swath neighbour info to non-lon/lat destination area"@))
        }
    }
}

pub fn require_lonlat_area(projection: &TextMap<String>) -> (r: Result<()>)
    ensures
        match lonlat_area_error(projection@) {
            Some(e) => fails_with(r, e),
            None => r is Ok,
        },
{
    let proj = match projection.get("proj") {
        Some(text) => text,
        None => match projection.get("proj4") {
            Some(text) => text,
            None => {
                return Err(
                    RustySatError::unsupported(
                        "swath neighbour info without lon/lat destination projection metadata",
                    ),
                );
            },
        },
    };
    if contains_text(proj.as_str(), "latlong") || contains_text(proj.as_str(), "longlat") {
        return Ok(());
    }
    Err(RustySatError::unsupported("swath neighbour info to non-lon/lat destination area"))
}

/// Which positions lie on the globe.
pub open spec fn valid_positions(lons: Seq<F64>, lats: Seq<F64>) -> Seq<bool> {
    Seq::new(lons.len(), |i: int| valid_lonlat(lons[i], lats[i]))
}

/// The longitude of a pixel of an area by longitude and latitude.
pub open spec fn pixel_lon(g: AreaGridView, t: int) -> F64 {
    g.x[t % (g.area.width as int)]
}

/// The latitude of a pixel of an area by longitude and latitude.
pub open spec fn pixel_lat(g: AreaGridView, t: int) -> F64 {
    g.y[t / (g.area.width as int)]
}

/// Which pixels of an area lie on the globe.
pub open spec fn valid_pixels(g: AreaGridView) -> Seq<bool> {
    Seq::new(
        (g.area.height * g.area.width) as nat,
        |t: int| valid_lonlat(pixel_lon(g, t), pixel_lat(g, t)),
    )
}

/// Whether the valid position `j` has the squared distance `d`, lies within the limit,
/// and no valid position is better.
pub open spec fn is_nearest_position<D: Fn(F64, F64, F64, F64) -> F64>(
    lons: Seq<F64>,
    lats: Seq<F64>,
    j: int,
    d: F64,
    x: F64,
    y: F64,
    max: F64,
    distance: D,
) -> bool {
    &&& 0 <= j < lons.len()
    &&& valid_lonlat(lons[j], lats[j])
    &&& distance.ensures((lons[j], lats[j], x, y), d)
    &&& d.at_most(max)
    &&& forall|k: int, e: F64|
        0 <= k < lons.len() && valid_lonlat(lons[k], lats[k]) && #[trigger] distance.ensures(
            (lons[k], lats[k], x, y),
            e,
        ) && e.at_most(max) ==> not_worse((j as usize, d), (k as usize, e))
}

/// Whether no valid position lies within the limit.
pub open spec fn none_near<D: Fn(F64, F64, F64, F64) -> F64>(
    lons: Seq<F64>,
    lats: Seq<F64>,
    x: F64,
    y: F64,
    max: F64,
    distance: D,
) -> bool {
    forall|k: int, e: F64|
        0 <= k < lons.len() && valid_lonlat(lons[k], lats[k]) && #[trigger] distance.ensures(
            (lons[k], lats[k], x, y),
            e,
        ) ==> !e.at_most(max)
}

/// Whether `entry` names the nearest valid position within the radius, by its number
/// among the valid ones and its distance, or stands for none where none lies there.
pub open spec fn position_entry<
    D: Fn(F64, F64, F64, F64) -> F64,
    S: Fn(F64) -> F64,
    R: Fn(F64) -> F64,
>(
    lons: Seq<F64>,
    lats: Seq<F64>,
    x: F64,
    y: F64,
    radius: Option<F64>,
    distance: D,
    square: S,
    root: R,
    entry: (usize, F64),
) -> bool {
    let flags = valid_positions(lons, lats);
    exists|max: F64| #[trigger]
        is_limit(square, radius, max) && {
            ||| exists|j: int, d: F64| #[trigger]
                is_nearest_position(lons, lats, j, d, x, y, max, distance) && entry.0 == count_set(
                    flags.take(j),
                ) && root.ensures((d,), entry.1)
            ||| none_near(lons, lats, x, y, max, distance) && entry == (
                count_set(flags) as usize,
                F64 { bits: INFINITE_64 },
            )
        }
}

/// Whether the entry of the valid target pixel `u` names its nearest source pixel.
pub open spec fn has_swath_entry<
    D: Fn(F64, F64, F64, F64) -> F64,
    S: Fn(F64) -> F64,
    R: Fn(F64) -> F64,
>(
    v: NeighbourView,
    u: int,
    lons: Seq<F64>,
    lats: Seq<F64>,
    target: AreaGridView,
    radius: Option<F64>,
    distance: D,
    square: S,
    root: R,
) -> bool {
    let at = count_set(v.valid_output.take(u)) as int;
    position_entry(
        lons,
        lats,
        pixel_lon(target, u),
        pixel_lat(target, u),
        radius,
        distance,
        square,
        root,
        (v.index[at], v.distance[at]),
    )
}

/// Whether `v` holds the nearest source pixel of each valid target pixel.
pub open spec fn swath_found<
    D: Fn(F64, F64, F64, F64) -> F64,
    S: Fn(F64) -> F64,
    R: Fn(F64) -> F64,
>(
    v: NeighbourView,
    lons: Seq<F64>,
    lats: Seq<F64>,
    target: AreaGridView,
    radius: Option<F64>,
    distance: D,
    square: S,
    root: R,
) -> bool {
    &&& v.source_size == lons.len()
    &&& v.target_size == target.area.height * target.area.width
    &&& v.neighbours == 1
    &&& v.valid_input == valid_positions(lons, lats)
    &&& v.valid_output == valid_pixels(target)
    &&& v.index.len() == count_set(v.valid_output)
    &&& v.distance.len() == v.index.len()
    &&& forall|u: int|
        0 <= u < v.target_size && v.valid_output[u] ==> #[trigger] has_swath_entry(
            v,
            u,
            lons,
            lats,
            target,
            radius,
            distance,
            square,
            root,
        )
}

/// The error with which the search for neighbours in a swath is refused, if it is.
pub open spec fn swath_search_error(
    source: SwathView,
    target: AreaGridView,
    radius: Option<F64>,
) -> Option<ErrorView> {
    if radius is Some && radius->Some_0.less(F64 { bits: 0 }) {
        Some(ErrorView::InvalidInput("radius_of_influence must be non-negative"@))
    } else if lonlat_area_error(target.area.projection) is Some {
        lonlat_area_error(target.area.projection)
    } else if source.lons is None {
        Some(ErrorView::InvalidInput("swath neighbour info requires longitude coordinates"@))
    } else {
        None
    }
}

/// Whether the points are the valid positions, each once and by its number.
spec fn are_valid_points(
    points: Seq<Point2D>,
    lons: Seq<F64>,
    lats: Seq<F64>,
    n: int,
) -> bool {
    &&& forall|m: int|
        0 <= m < points.len() ==> (#[trigger] points[m]).number() < n && valid_lonlat(
            lons[points[m].number() as int],
            lats[points[m].number() as int],
        ) && points[m].px() == lons[points[m].number() as int] && points[m].py()
            == lats[points[m].number() as int]
    &&& forall|i: int|
        0 <= i < n && valid_lonlat(#[trigger] lons[i], lats[i]) ==> exists|m: int|
            0 <= m < points.len() && (#[trigger] points[m]).number() == i
}

/// Lists that hold the same points in another order.
proof fn lemma_reordered_points(
    points: Seq<Point2D>,
    built: Seq<Point2D>,
    lons: Seq<F64>,
    lats: Seq<F64>,
    n: int,
)
    requires
        points.to_multiset() == built.to_multiset(),
        are_valid_points(built, lons, lats, n),
    ensures
        are_valid_points(points, lons, lats, n),
{
    points.to_multiset_ensures();
    built.to_multiset_ensures();
    assert forall|m: int| 0 <= m < points.len() implies (#[trigger] points[m]).number() < n
        && valid_lonlat(lons[points[m].number() as int], lats[points[m].number() as int])
        && points[m].px() == lons[points[m].number() as int] && points[m].py()
        == lats[points[m].number() as int] by {
        assert(points.contains(points[m]));
        assert(points.to_multiset().count(points[m]) > 0);
        assert(built.contains(points[m]));
        let k = choose|k: int| 0 <= k < built.len() && built[k] == points[m];
        assert(built[k].number() < n);
    }
    assert forall|i: int| 0 <= i < n && valid_lonlat(#[trigger] lons[i], lats[i]) implies exists|
        m: int,
    |
        0 <= m < points.len() && (#[trigger] points[m]).number() == i by {
        let k = choose|k: int| 0 <= k < built.len() && (#[trigger] built[k]).number() == i;
        assert(built.contains(built[k]));
        assert(built.to_multiset().count(built[k]) > 0);
        assert(points.contains(built[k]));
        let m = choose|m: int| 0 <= m < points.len() && points[m] == built[k];
        assert(points[m].number() == i);
    }
}

/// The points of the valid positions.
fn valid_points(lons: &Vec<F64>, lats: &Vec<F64>, flags: &Vec<bool>) -> (r: Vec<Point2D>)
    requires
        lons@.len() == lats@.len(),
        flags@ == valid_positions(lons@, lats@),
    ensures
        are_valid_points(r@, lons@, lats@, lons@.len() as int),
{
    let mut points: Vec<Point2D> = Vec::new();
    let mut i: usize = 0;
    while i < lons.len()
        invariant
            i <= lons@.len(),
            lons@.len() == lats@.len(),
            flags@ == valid_positions(lons@, lats@),
            are_valid_points(points@, lons@, lats@, i as int),
        decreases lons@.len() - i,
    {
        let ghost before = points@;
        if flags[i] {
            assert(valid_lonlat(lons@[i as int], lats@[i as int]));
            match Point2D::new(i, lons[i], lats[i]) {
                Ok(p) => {
                    points.push(p);
                    assert(points@[before.len() as int].number() == i);
                },
                Err(_) => {},
            }
        }
        proof {
            assert forall|k: int| 0 <= k < i + 1 && valid_lonlat(
                #[trigger] lons@[k],
                lats@[k],
            ) implies exists|m: int|
                0 <= m < points@.len() && (#[trigger] points@[m]).number() == k by {
                if k < i {
                    let m = choose|m: int|
                        0 <= m < before.len() && (#[trigger] before[m]).number() == k;
                    assert(points@[m] == before[m]);
                }
            }
        }
        i = i + 1;
    }
    points
}

fn flag_positions(lons: &Vec<F64>, lats: &Vec<F64>) -> (r: Vec<bool>)
    requires
        lons@.len() == lats@.len(),
    ensures
        r@ == valid_positions(lons@, lats@),
{
    let mut out: Vec<bool> = Vec::new();
    let mut i: usize = 0;
    while i < lons.len()
        invariant
            i <= lons@.len(),
            lons@.len() == lats@.len(),
            out@.len() == i,
            forall|j: int| 0 <= j < i ==> out@[j] == valid_positions(lons@, lats@)[j],
        decreases lons@.len() - i,
    {
        out.push(is_valid_lonlat(lons[i], lats[i]));
        i = i + 1;
    }
    assert(out@ =~= valid_positions(lons@, lats@));
    out
}

/// The nearest point of a tree is the nearest valid position.
proof fn lemma_entry_of_found<
    D: Fn(F64, F64, F64, F64) -> F64,
    S: Fn(F64) -> F64,
    R: Fn(F64) -> F64,
>(
    points: Seq<Point2D>,
    lons: Seq<F64>,
    lats: Seq<F64>,
    x: F64,
    y: F64,
    radius: Option<F64>,
    distance: D,
    square: S,
    root: R,
    found: Option<NearestPoint>,
)
    requires
        lons.len() == lats.len(),
        lons.len() <= usize::MAX,
        are_valid_points(points, lons, lats, lons.len() as int),
        nearest_found(points, x, y, radius, distance, square, root, found),
    ensures
        found is Some ==> found->Some_0.index < lons.len() && valid_positions(
            lons,
            lats,
        )[found->Some_0.index as int],
        position_entry(
            lons,
            lats,
            x,
            y,
            radius,
            distance,
            square,
            root,
            match found {
                Some(f) => (
                    count_set(valid_positions(lons, lats).take(f.index as int)) as usize,
                    f.distance,
                ),
                None => (count_set(valid_positions(lons, lats)) as usize, F64 { bits: INFINITE_64 }),
            },
        ),
{
    let flags = valid_positions(lons, lats);
    lemma_set_positions(flags);
    let max = choose|max: F64| #[trigger]
        is_limit(square, radius, max) && match found {
            Some(f) => exists|j: int, d: F64| #[trigger]
                is_nearest(points, j, d, x, y, max, distance) && points[j].number() == f.index
                    && root.ensures((d,), f.distance),
            None => forall|k: int, e: F64|
                0 <= k < points.len() && #[trigger] is_distance(distance, points[k], x, y, e)
                    ==> !e.at_most(max),
        };
    match found {
        Some(f) => {
            let (j, d) = choose|j: int, d: F64| #[trigger]
                is_nearest(points, j, d, x, y, max, distance) && points[j].number() == f.index
                    && root.ensures((d,), f.distance);
            let i = f.index as int;
            lemma_set_positions(flags.take(i));
            assert(points[j].number() < lons.len());
            assert(is_distance(distance, points[j], x, y, d));
            assert forall|k: int, e: F64|
                0 <= k < lons.len() && valid_lonlat(lons[k], lats[k])
                    && #[trigger] distance.ensures((lons[k], lats[k], x, y), e) && e.at_most(
                    max,
                ) implies not_worse((i as usize, d), (k as usize, e)) by {
                let m = choose|m: int| 0 <= m < points.len() && (#[trigger] points[m]).number()
                    == k;
                assert(is_distance(distance, points[m], x, y, e));
            }
            assert(is_nearest_position(lons, lats, i, d, x, y, max, distance));
        },
        None => {
            assert forall|k: int, e: F64|
                0 <= k < lons.len() && valid_lonlat(lons[k], lats[k])
                    && #[trigger] distance.ensures((lons[k], lats[k], x, y), e) implies !e.at_most(
                max,
            ) by {
                let m = choose|m: int| 0 <= m < points.len() && (#[trigger] points[m]).number()
                    == k;
                assert(is_distance(distance, points[m], x, y, e));
            }
            assert(none_near(lons, lats, x, y, max, distance));
        },
    }
}

/// The nearest source pixel of each target pixel of an area by longitude and latitude.
/// Positions off the globe are left out on both sides. `distance` gives the squared
/// distance of two positions, `gap`, `square` and `root` are as for the search in a tree
/// of points.
pub fn get_swath_neighbour_info<
    D: Fn(F64, F64, F64, F64) -> F64,
    G: Fn(F64, F64) -> (bool, F64),
    S: Fn(F64) -> F64,
    R: Fn(F64) -> F64,
>(
    source: &SwathDefinition,
    target: &AreaGrid,
    radius_of_influence: Option<F64>,
    distance: &D,
    gap: &G,
    square: &S,
    root: &R,
) -> (r: Result<NeighbourInfo>)
    requires
        forall|x: F64, y: F64|
            x.finite() && y.finite() ==> #[trigger] measures_ok(*distance, *gap, x, y),
        forall|v: F64| #[trigger] square.requires((v,)),
        forall|v: F64| #[trigger] root.requires((v,)),
    ensures
        match swath_search_error(source@, target@, radius_of_influence) {
            Some(e) => fails_with(r, e),
            None => r is Ok && swath_found(
                r->Ok_0@,
                source@.lons->Some_0,
                source@.lats->Some_0,
                target@,
                radius_of_influence,
                *distance,
                *square,
                *root,
            ),
        },
{
    proof {
        use_type_invariant(source);
        use_type_invariant(target);
    }
    match radius_of_influence {
        Some(radius) => {
            if radius.lt(F64 { bits: 0 }) {
                return Err(
                    RustySatError::invalid_input("radius_of_influence must be non-negative"),
                );
            }
        },
        None => {},
    }
    match require_lonlat_area(target.area().projection()) {
        Ok(()) => {},
        Err(e) => {
            return Err(e);
        },
    }
    let source_lons = match source.lons() {
        Some(lons) => lons,
        None => {
            return Err(
                RustySatError::invalid_input(
                    "swath neighbour info requires longitude coordinates",
                ),
            );
        },
    };
    let source_lats = match source.lats() {
        Some(lats) => lats,
        None => {
            return Err(
                RustySatError::invalid_input("swath neighbour info requires latitude coordinates"),
            );
        },
    };
    let ghost lons = source_lons@;
    let ghost lats = source_lats@;
    let source_size: usize = source_lons.len();
    let (target_height, target_width) = target.shape();
    let target_size: usize = target_height * target_width;
    let valid_input_index = flag_positions(source_lons, source_lats);
    let ghost flags = valid_input_index@;
    let source_to_reduced = source_to_reduced_index(&valid_input_index);
    let built = valid_points(source_lons, source_lats, &valid_input_index);
    let ghost built_points = built@;
    let source_index = KdPointIndex2D::from_points(built);
    proof {
        lemma_reordered_points(
            source_index.points(),
            built_points,
            lons,
            lats,
            source_size as int,
        );
        lemma_set_positions(flags);
    }
    let missing_index: usize = count_flags(&valid_input_index);
    let mut valid_output_index: Vec<bool> = Vec::new();
    let mut index_array: Vec<usize> = Vec::new();
    let mut distance_array: Vec<F64> = Vec::new();
    let ghost g = target@;
    let mut t: usize = 0;
    while t < target_size
        invariant
            t <= target_size,
            g == target@,
            area_grid_ok(g),
            target_width == g.area.width,
            target_size == g.area.height * g.area.width,
            target_size == valid_pixels(g).len(),
            lons.len() == lats.len(),
            lons.len() <= usize::MAX,
            flags == valid_positions(lons, lats),
            source_to_reduced@ == reduced_numbers(flags),
            missing_index == count_set(flags),
            are_valid_points(source_index.points(), lons, lats, lons.len() as int),
            !(radius_of_influence is Some && radius_of_influence->Some_0.less(F64 { bits: 0 })),
            forall|x: F64, y: F64|
                x.finite() && y.finite() ==> #[trigger] measures_ok(*distance, *gap, x, y),
            forall|v: F64| #[trigger] square.requires((v,)),
            forall|v: F64| #[trigger] root.requires((v,)),
            valid_output_index@ == valid_pixels(g).take(t as int),
            index_array@.len() == count_set(valid_pixels(g).take(t as int)),
            index_array@.len() <= t,
            distance_array@.len() == index_array@.len(),
            forall|u: int|
                0 <= u < t && #[trigger] valid_pixels(g)[u] ==> count_set(valid_pixels(g).take(u))
                    < index_array@.len() && position_entry(
                    lons,
                    lats,
                    pixel_lon(g, u),
                    pixel_lat(g, u),
                    radius_of_influence,
                    *distance,
                    *square,
                    *root,
                    (
                        index_array@[count_set(valid_pixels(g).take(u)) as int],
                        distance_array@[count_set(valid_pixels(g).take(u)) as int],
                    ),
                ),
        decreases target_size - t,
    {
        let ghost index_before = index_array@;
        let ghost distance_before = distance_array@;
        proof {
            assert(t % target_width < target_width && t / target_width < g.area.height)
                by (nonlinear_arith)
                requires
                    t < g.area.height * target_width,
                    target_width > 0,
            ;
            assert(valid_pixels(g).take(t + 1).drop_last() =~= valid_pixels(g).take(t as int));
            assert(valid_pixels(g).take(t + 1) =~= valid_pixels(g).take(t as int).push(
                valid_pixels(g)[t as int],
            ));
        }
        let lon = target.x()[t % target_width];
        let lat = target.y()[t / target_width];
        let valid = is_valid_lonlat(lon, lat);
        valid_output_index.push(valid);
        if valid {
            let found = match source_index.nearest(
                lon,
                lat,
                radius_of_influence,
                distance,
                gap,
                square,
                root,
            ) {
                Ok(f) => f,
                Err(e) => {
                    return Err(e);
                },
            };
            proof {
                lemma_entry_of_found(
                    source_index.points(),
                    lons,
                    lats,
                    lon,
                    lat,
                    radius_of_influence,
                    *distance,
                    *square,
                    *root,
                    found,
                );
            }
            match found {
                Some(nearest) => {
                    let reduced: usize = match source_to_reduced[nearest.index()] {
                        Some(n) => n,
                        None => missing_index,
                    };
                    index_array.push(reduced);
                    distance_array.push(nearest.distance());
                },
                None => {
                    index_array.push(missing_index);
                    distance_array.push(F64 { bits: INFINITE_64 });
                },
            }
            proof {
                let at = index_before.len() as int;
                assert(position_entry(
                    lons,
                    lats,
                    pixel_lon(g, t as int),
                    pixel_lat(g, t as int),
                    radius_of_influence,
                    *distance,
                    *square,
                    *root,
                    (index_array@[at], distance_array@[at]),
                ));
            }
        }
        t = t + 1;
    }
    proof {
        assert(valid_pixels(g).take(target_size as int) =~= valid_pixels(g));
    }
    let r = NeighbourInfo::new(
        source_size,
        target_size,
        1,
        valid_input_index,
        valid_output_index,
        index_array,
        distance_array,
    );
    proof {
        let v = r->Ok_0@;
        assert(v.valid_output == valid_pixels(g));
        assert forall|u: int| 0 <= u < v.target_size && v.valid_output[u] implies #[trigger]
        has_swath_entry(
            v,
            u,
            lons,
            lats,
            g,
            radius_of_influence,
            *distance,
            *square,
            *root,
        ) by {
            assert(valid_pixels(g)[u]);
        }
    }
    r
}

/// A position is valid exactly where it is on the globe: its longitude between -180 and 180,
/// its latitude between -90 and 90.
pub proof fn lemma_valid_is_on_globe(lon: F64, lat: F64)
    ensures
        valid_lonlat(lon, lat) <==> lon.finite() && lat.finite() && reaches(lon, -180) && is_reached(
            lon,
            180,
        ) && reaches(lat, -90) && is_reached(lat, 90),
{
    vstd::arithmetic::power2::lemma2_to64();
    vstd::arithmetic::power2::lemma2_to64_rest();
    let west = F64 { bits: WEST_END };
    let east = F64 { bits: EAST_END };
    let south = F64 { bits: SOUTH_END };
    let north = F64 { bits: NORTH_END };
    assert(west.signed_numerator() == -180 * west.denominator());
    assert(east.signed_numerator() == 180 * east.denominator());
    assert(south.signed_numerator() == -90 * south.denominator());
    assert(north.signed_numerator() == 90 * north.denominator());
    if lon.finite() {
        lemma_order_of_whole(lon, west, -180);
        lemma_order_of_whole(lon, east, 180);
    }
    if lat.finite() {
        lemma_order_of_whole(lat, south, -90);
        lemma_order_of_whole(lat, north, 90);
    }
}

/// The neighbours between two areas: all pixels are valid, and each target pixel has its row of
/// entries. A single neighbour is the pixel of the row and the column nearest to the place of
/// the target pixel, unless it lies beyond the radius. Of more, each is a source pixel with its
/// distance, not beyond the radius; no source pixel comes twice, none is nearer than one before
/// it, and one that is left out is not nearer than any of a full row. Free entries hold the
/// number of source pixels and an infinite distance.
pub proof fn lemma_area_neighbours<
    L: Fn(F64, F64) -> (F64, F64),
    D: Fn(F64, F64, F64, F64) -> F64,
>(
    v: NeighbourView,
    source: AreaGridView,
    target: AreaGridView,
    radius: Option<F64>,
    neighbours: usize,
    locate: L,
    distance: D,
    y: int,
    x: int,
) -> (out: (Seq<(usize, F64)>, (F64, F64), (usize, usize), Seq<F64>))
    requires
        area_found(v, source, target, radius, neighbours, locate, distance),
        source.area.height > 0,
        source.area.width > 0,
        source.area.height * source.area.width <= usize::MAX,
        0 <= y < target.area.height,
        0 <= x < target.area.width,
    ensures
        v.source_size == source.area.height * source.area.width,
        v.target_size == target.area.height * target.area.width,
        forall|i: int| 0 <= i < v.source_size ==> #[trigger] v.valid_input[i],
        forall|i: int| 0 <= i < v.target_size ==> #[trigger] v.valid_output[i],
        ({
            let (list, place, pixel, gaps) = out;
            let at = (y * target.area.width + x) * neighbours;
            &&& holds_entries(v, at, list)
            &&& neighbours == 1 ==> {
                &&& locate.ensures((target.x[x], target.y[y]), place)
                &&& is_single_neighbour(
                    list,
                    source,
                    target.x[x],
                    target.y[y],
                    place,
                    pixel,
                    radius,
                    distance,
                )
            }
            &&& neighbours != 1 ==> {
                &&& measures_all(gaps, source, target.x[x], target.y[y], distance)
                &&& are_nearest(list, gaps, radius, neighbours as nat)
            }
        }),
{
    let t = y * target.area.width + x;
    crate::nd_utils::lemma_pixel_inside(y, x, target.area.height as int, target.area.width as int);
    vstd::arithmetic::div_mod::lemma_fundamental_div_mod_converse(
        t,
        target.area.width as int,
        y,
        x,
    );
    assert(has_area_entries(v, t, source, target, radius, neighbours, locate, distance));
    let list = choose|list: Seq<(usize, F64)>|
        area_candidates(
            list,
            source,
            pixel_lon(target, t),
            pixel_lat(target, t),
            radius,
            neighbours,
            locate,
            distance,
        ) && #[trigger] entries_from(v, t, list, v.source_size);
    let none = F64 { bits: 0 };
    assert(holds_entries(v, t * neighbours, list));
    if neighbours == 1 {
        let place = choose|place: (F64, F64)| #[trigger]
            locate.ensures((target.x[x], target.y[y]), place) && is_single(
                list,
                source,
                target.x[x],
                target.y[y],
                place,
                radius,
                distance,
            );
        lemma_place_is_nearest(place.1, source.area.height, 0);
        lemma_place_is_nearest(place.0, source.area.width, 0);
        let pixel = match pixel_near(place, source.area.height, source.area.width) {
            Some(p) => p,
            None => (0, 0),
        };
        assert forall|row: int|
            place.1.finite() && place.0.finite() && 0 <= row < source.area.height implies apart(
            place.1,
            pixel.0 as int,
        ) <= #[trigger] apart(place.1, row) by {
            lemma_place_is_nearest(place.1, source.area.height, row);
        }
        assert forall|column: int|
            place.1.finite() && place.0.finite() && 0 <= column < source.area.width implies apart(
            place.0,
            pixel.1 as int,
        ) <= #[trigger] apart(place.0, column) by {
            lemma_place_is_nearest(place.0, source.area.width, column);
        }
        crate::nd_utils::lemma_pixel_inside(
            pixel.0 as int,
            pixel.1 as int,
            source.area.height as int,
            source.area.width as int,
        );
        (list, place, pixel, Seq::empty())
    } else {
        let gaps = choose|all: Seq<F64>| #[trigger]
            are_gaps(source, target.x[x], target.y[y], distance, all) && first_candidates(
                list,
                all,
                radius,
                neighbours as nat,
            );
        assert(measures_all(gaps, source, target.x[x], target.y[y], distance));
        lemma_candidates_are_nearest(list, gaps, radius, neighbours as nat);
        (list, (none, none), (0, 0), gaps)
    }
}

/// Whether the entries of a target pixel, which begin at `at`, are those of a list, and the free
/// ones hold the number of source pixels and an infinite distance.
pub open spec fn holds_entries(v: NeighbourView, at: int, list: Seq<(usize, F64)>) -> bool {
    forall|k: int|
        0 <= k < v.neighbours ==> if k < list.len() {
            #[trigger] v.index[at + k] == list[k].0 && v.distance[at + k] == list[k].1
        } else {
            v.index[at + k] == v.source_size && v.distance[at + k].bits == INFINITE_64
        }
}

/// Whether a list holds the source pixel of the row and the column nearest to a place, with its
/// distance, or nothing where it lies beyond the radius or the place is not finite.
pub open spec fn is_single_neighbour<D: Fn(F64, F64, F64, F64) -> F64>(
    list: Seq<(usize, F64)>,
    source: AreaGridView,
    x: F64,
    y: F64,
    place: (F64, F64),
    pixel: (usize, usize),
    radius: Option<F64>,
    distance: D,
) -> bool {
    if !place.0.finite() || !place.1.finite() {
        list.len() == 0
    } else {
        &&& pixel.0 < source.area.height
        &&& pixel.1 < source.area.width
        &&& forall|row: int|
            0 <= row < source.area.height ==> apart(place.1, pixel.0 as int) <= #[trigger] apart(
                place.1,
                row,
            )
        &&& forall|column: int|
            0 <= column < source.area.width ==> apart(place.0, pixel.1 as int) <= #[trigger] apart(
                place.0,
                column,
            )
        &&& exists|d: F64| #[trigger]
            distance.ensures((source.x[pixel.1 as int], source.y[pixel.0 as int], x, y), d) && if radius
                is Some && radius->Some_0.less(d) {
                list.len() == 0
            } else {
                list.len() == 1 && list[0].0 == pixel.0 * source.area.width + pixel.1 && list[0].1
                    == d
            }
    }
}

/// Whether these are the distances of all source pixels, row by row, from a position.
pub open spec fn measures_all<D: Fn(F64, F64, F64, F64) -> F64>(
    gaps: Seq<F64>,
    source: AreaGridView,
    x: F64,
    y: F64,
    distance: D,
) -> bool {
    &&& gaps.len() == source.area.height * source.area.width
    &&& forall|i: int|
        0 <= i < gaps.len() ==> distance.ensures(
            (source.x[i % source.area.width as int], source.y[i / source.area.width as int], x, y),
            #[trigger] gaps[i],
        )
}

/// Whether a distance is not beyond a radius, where there is one.
pub open spec fn not_beyond(radius: Option<F64>, d: F64) -> bool {
    radius is Some ==> !d.nan() && !radius->Some_0.nan() && d.rank() <= radius->Some_0.rank()
}

/// Whether no entry of a list has a number.
pub open spec fn is_absent(list: Seq<(usize, F64)>, i: int) -> bool {
    forall|m: int| 0 <= m < list.len() ==> (#[trigger] list[m]).0 != i
}

/// Whether some entry of a list has a number.
pub open spec fn is_present(list: Seq<(usize, F64)>, i: int) -> bool {
    exists|m: int| 0 <= m < list.len() && (#[trigger] list[m]).0 == i
}

/// Whether a list holds the `n` candidates with the least distances, or all where there are
/// fewer, none of them beyond the radius, in the order of their distances and, where these are
/// the same, of their numbers.
pub open spec fn are_nearest(
    list: Seq<(usize, F64)>,
    gaps: Seq<F64>,
    radius: Option<F64>,
    n: nat,
) -> bool {
    &&& list.len() <= n
    &&& forall|k: int|
        0 <= k < list.len() ==> (#[trigger] list[k]).0 < gaps.len() && list[k].1
            == gaps[list[k].0 as int] && not_beyond(radius, list[k].1)
    &&& forall|j: int, k: int|
        0 <= j < k < list.len() ==> (#[trigger] list[j]).0 != (#[trigger] list[k]).0
            && list[j].1.total_rank() <= list[k].1.total_rank() && (list[j].1.total_rank()
            == list[k].1.total_rank() ==> list[j].0 < list[k].0)
    &&& forall|i: int, k: int|
        0 <= i < gaps.len() && 0 <= k < list.len() && not_beyond(radius, #[trigger] gaps[i]) && is_absent(list, i) ==> list.len() == n && (
        #[trigger] list[k]).1.total_rank() <= gaps[i].total_rank()
    &&& forall|i: int|
        0 <= i < gaps.len() && list.len() < n && not_beyond(radius, #[trigger] gaps[i]) ==> is_present(list, i)
}

/// The first candidates are the nearest ones.
pub proof fn lemma_candidates_are_nearest(
    list: Seq<(usize, F64)>,
    gaps: Seq<F64>,
    radius: Option<F64>,
    n: nat,
)
    requires
        first_candidates(list, gaps, radius, n),
    ensures
        are_nearest(list, gaps, radius, n),
{
    assert forall|j: int, k: int| 0 <= j < k < list.len() implies (#[trigger] list[j]).0 != (
    #[trigger] list[k]).0 && list[j].1.total_rank() <= list[k].1.total_rank() && (
    list[j].1.total_rank() == list[k].1.total_rank() ==> list[j].0 < list[k].0) by {
        assert(sooner(list[j].1, list[j].0 as int, list[k].1, list[k].0 as int));
        assert(list[j].1 == gaps[list[j].0 as int] && list[k].1 == gaps[list[k].0 as int]);
    }
    assert forall|i: int|
        0 <= i < gaps.len() && list.len() < n && not_beyond(radius, #[trigger] gaps[i]) implies is_present(list, i) by {
        assert(within(radius, gaps[i]));
        assert(is_listed(list, i));
    }
    assert forall|i: int, k: int|
        0 <= i < gaps.len() && 0 <= k < list.len() && not_beyond(radius, #[trigger] gaps[i]) && is_absent(list, i) implies list.len() == n && (
    #[trigger] list[k]).1.total_rank() <= gaps[i].total_rank() by {
        assert(within(radius, gaps[i]));
        assert(!is_listed(list, i));
        assert(sooner(list[k].1, list[k].0 as int, gaps[i], i));
    }
}

/// Whether a position is on the globe.
pub open spec fn on_earth(lon: F64, lat: F64) -> bool {
    lon.finite() && lat.finite() && reaches(lon, -180) && is_reached(lon, 180) && reaches(lat, -90)
        && is_reached(lat, 90)
}

/// The neighbour of a target pixel in a swath: it is one of the positions on the globe, within
/// the radius, and no other there is nearer, nor as near with a lesser number. Its entry holds
/// its place among these positions and the root of its squared distance. Where there is none, the
/// entry holds their number and an infinite distance.
pub proof fn lemma_swath_neighbour<
    D: Fn(F64, F64, F64, F64) -> F64,
    S: Fn(F64) -> F64,
    R: Fn(F64) -> F64,
>(
    v: NeighbourView,
    lons: Seq<F64>,
    lats: Seq<F64>,
    target: AreaGridView,
    radius: Option<F64>,
    distance: D,
    square: S,
    root: R,
    targets: Seq<int>,
    sources: Seq<int>,
    n: int,
) -> (out: (F64, Option<(int, F64)>))
    requires
        swath_found(v, lons, lats, target, radius, distance, square, root),
        lons.len() == lats.len(),
        lons.len() <= usize::MAX,
        target.area.height * target.area.width <= usize::MAX,
        lists_set(targets, v.valid_output),
        lists_set(sources, v.valid_input),
        0 <= n < targets.len(),
    ensures
        v.source_size == lons.len(),
        v.neighbours == 1,
        forall|i: int|
            0 <= i < lons.len() ==> #[trigger] v.valid_input[i] == on_earth(lons[i], lats[i]),
        forall|y: int, x: int|
            #![trigger v.valid_output[y * target.area.width + x]]
            0 <= y < target.area.height && 0 <= x < target.area.width ==> v.valid_output[y
                * target.area.width + x] == on_earth(target.x[x], target.y[y]),
        ({
            let (max, found) = out;
            let lon = target.x[targets[n] % target.area.width as int];
            let lat = target.y[targets[n] / target.area.width as int];
            &&& if radius is Some {
                square.ensures((radius->Some_0,), max)
            } else {
                max.bits == INFINITE_64
            }
            &&& match found {
                Some((j, d)) => {
                    &&& 0 <= j < sources.len()
                    &&& v.index[n] == j
                    &&& root.ensures((d,), v.distance[n])
                    &&& distance.ensures((lons[sources[j]], lats[sources[j]], lon, lat), d)
                    &&& d.at_most(max)
                    &&& forall|k: int, e: F64|
                        0 <= k < lons.len() && on_earth(lons[k], lats[k])
                            && #[trigger] distance.ensures((lons[k], lats[k], lon, lat), e)
                            && e.at_most(max) ==> d.rank() < e.rank() || (d.rank() == e.rank()
                            && sources[j] <= k)
                },
                None => {
                    &&& v.index[n] == sources.len()
                    &&& v.distance[n].bits == INFINITE_64
                    &&& forall|k: int, e: F64|
                        0 <= k < lons.len() && on_earth(lons[k], lats[k])
                            && #[trigger] distance.ensures((lons[k], lats[k], lon, lat), e)
                            ==> !e.at_most(max)
                },
            }
        }),
{
    assert forall|a: F64, b: F64| #[trigger] valid_lonlat(a, b) == on_earth(a, b) by {
        lemma_valid_is_on_globe(a, b);
    }
    let all = lemma_set_listed(v.valid_output);
    let every = lemma_set_listed(v.valid_input);
    crate::neighbour::lemma_lists_same(targets, all, v.valid_output);
    crate::neighbour::lemma_lists_same(sources, every, v.valid_input);
    assert forall|y: int, x: int|
        #![trigger v.valid_output[y * target.area.width + x]]
        0 <= y < target.area.height && 0 <= x < target.area.width implies v.valid_output[y
        * target.area.width + x] == on_earth(target.x[x], target.y[y]) by {
        let w = target.area.width as int;
        crate::nd_utils::lemma_pixel_inside(y, x, target.area.height as int, w);
        vstd::arithmetic::div_mod::lemma_fundamental_div_mod_converse(y * w + x, w, y, x);
    }
    assert forall|i: int| 0 <= i < lons.len() implies #[trigger] v.valid_input[i] == on_earth(
        lons[i],
        lats[i],
    ) by {
        assert(v.valid_input[i] == valid_lonlat(lons[i], lats[i]));
    }
    let u = targets[n];
    assert(v.valid_output[u]);
    assert(has_swath_entry(v, u, lons, lats, target, radius, distance, square, root));
    let at = count_set(v.valid_output.take(u)) as int;
    assert(v.valid_output.take(u + 1).drop_last() =~= v.valid_output.take(u));
    assert(v.valid_output.take(u + 1).last() == v.valid_output[u]);
    assert(at == n);
    let lon = pixel_lon(target, u);
    let lat = pixel_lat(target, u);
    let entry = (v.index[n], v.distance[n]);
    let flags = v.valid_input;
    let max = choose|max: F64| #[trigger]
        is_limit(square, radius, max) && {
            ||| exists|j: int, d: F64| #[trigger]
                is_nearest_position(lons, lats, j, d, lon, lat, max, distance) && entry.0
                    == count_set(flags.take(j)) && root.ensures((d,), entry.1)
            ||| none_near(lons, lats, lon, lat, max, distance) && entry == (
                count_set(flags) as usize,
                F64 { bits: INFINITE_64 },
            )
        };
    if exists|j: int, d: F64| #[trigger]
        is_nearest_position(lons, lats, j, d, lon, lat, max, distance) && entry.0 == count_set(
            flags.take(j),
        ) && root.ensures((d,), entry.1) {
        let (j, d) = choose|j: int, d: F64| #[trigger]
            is_nearest_position(lons, lats, j, d, lon, lat, max, distance) && entry.0 == count_set(
                flags.take(j),
            ) && root.ensures((d,), entry.1);
        assert(flags[j] == valid_lonlat(lons[j], lats[j]));
        let taken = |i: int| flags[i];
        assert(taken(j));
        let m = choose|m: int| 0 <= m < sources.len() && sources[m] == j;
        assert(count_set(flags.take(sources[m] + 1)) == m + 1);
        assert(flags.take(j + 1).drop_last() =~= flags.take(j));
        assert(flags.take(j + 1).last() == flags[j]);
        (max, Some((m, d)))
    } else {
        lemma_set_positions(flags);
        (max, None)
    }
}

/// The search in a swath is done exactly where the radius is not below zero, the target is one
/// by longitude and latitude, and the swath has longitudes.
pub proof fn lemma_swath_search_accepts(source: SwathView, target: AreaGridView, radius: Option<F64>)
    ensures
        swath_search_error(source, target, radius) is None <==> !(radius is Some
            && !radius->Some_0.nan() && radius->Some_0.rank() < 0) && by_lonlat(
            target.area.projection,
        ) && source.lons is Some,
{
    lemma_by_lonlat(
        target.area.projection,
        "swath neighbour info without lon/lat destination projection metadata"@,
        "swath neighbour info to non-lon/lat destination area"@,
    );
}

} // verus!
