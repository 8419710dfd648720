//! The last steps of every resampling: the mask, the coordinates that are kept and
//! the coordinates of the target plane.

use crate::area::{AreaGrid, AreaGridView};
use crate::array::{
    any_set, coordinate_shape_of, copy_values, fits, has_set, lemma_y_is_not_x, misfit_text,
    size_along, ArrayView, Coordinate, CoordinateView, DataArray, ValidityMask,
};
use crate::error::{is_invalid, Result};
use crate::nd_utils::size_of_shape;
use crate::number::F64;
use crate::text::{lemma_position_in, position_in, same_text, texts};
use crate::text_map::{Duplicate, TextMap};
use vstd::prelude::*;

verus! {

/// Which names and dimensions belong to the plane, so that their coordinates are not
/// kept: those of an area, or those of a swath, whose pixels also have positions.
#[derive(Clone, Copy, Debug, PartialEq, Eq, Structural)]
pub enum PlaneNames {
    Area,
    Swath,
}

impl PlaneNames {
    /// Whether a name belongs to the plane.
    pub open spec fn covers(self, name: Seq<char>) -> bool {
        ||| name == "y"@
        ||| name == "x"@
        ||| name == "crs"@
        ||| self is Swath && (name == "longitude"@ || name == "latitude"@)
    }

    pub fn contains(self, name: &str) -> (r: bool)
        ensures
            r == self.covers(name@),
    {
        same_text(name, "y") || same_text(name, "x") || same_text(name, "crs") || (self
            == PlaneNames::Swath && (same_text(name, "longitude") || same_text(name, "latitude")))
    }
}

/// Whether a coordinate is kept: neither its name nor one of its dimensions belongs
/// to the plane.
pub open spec fn keeps_coordinate(
    names: PlaneNames,
    name: Seq<char>,
    dims: Seq<Seq<char>>,
) -> bool {
    &&& !names.covers(name)
    &&& forall|k: int| 0 <= k < dims.len() ==> !names.covers(#[trigger] dims[k])
}

/// Whether a coordinate is kept.
pub fn should_preserve_coord(names: PlaneNames, name: &str, coordinate: &Coordinate) -> (r: bool)
    ensures
        r == keeps_coordinate(names, name@, coordinate@.dims),
{
    if names.contains(name) {
        return false;
    }
    let dims = coordinate.dims();
    let ghost d = coordinate@.dims;
    let mut i: usize = 0;
    while i < dims.len()
        invariant
            i <= dims@.len(),
            texts(dims@) == d,
            d == coordinate@.dims,
            forall|k: int| 0 <= k < i ==> !names.covers(#[trigger] d[k]),
        decreases dims@.len() - i,
    {
        assert(d[i as int] == dims@[i as int]@);
        if names.contains(dims[i].as_str()) {
            return false;
        }
        i = i + 1;
    }
    true
}

/// The coordinates that are kept.
pub open spec fn kept_coordinates(
    names: PlaneNames,
    coords: Map<Seq<char>, CoordinateView>,
) -> Map<Seq<char>, CoordinateView> {
    Map::new(
        |k: Seq<char>| coords.dom().contains(k) && keeps_coordinate(names, k, coords[k].dims),
        |k: Seq<char>| coords[k],
    )
}

/// Whether every coordinate that is kept fits an array.
pub open spec fn kept_fit(
    names: PlaneNames,
    coords: Map<Seq<char>, CoordinateView>,
    dims: Seq<Seq<char>>,
    shape: Seq<usize>,
) -> bool {
    forall|k: Seq<char>| #[trigger]
        coords.dom().contains(k) && keeps_coordinate(names, k, coords[k].dims) ==> fits(
            coords[k],
            dims,
            shape,
        )
}

/// Whether `r` reports the first coordinate, in the order of the names, that is kept
/// and does not fit.
pub open spec fn reports_misfit<T>(
    r: Result<T>,
    names: PlaneNames,
    coords: Map<Seq<char>, CoordinateView>,
    keys: Seq<Seq<char>>,
    dims: Seq<Seq<char>>,
    shape: Seq<usize>,
) -> bool {
    exists|j: int|
        0 <= j < keys.len() && is_invalid(r, misfit_text(#[trigger] keys[j]))
            && coords.dom().contains(keys[j]) && keeps_coordinate(names, keys[j], coords[keys[j]].dims)
            && !fits(coords[keys[j]], dims, shape) && forall|i: int|
            0 <= i < j && keeps_coordinate(names, #[trigger] keys[i], coords[keys[i]].dims) ==> fits(
                coords[keys[i]],
                dims,
                shape,
            )
}

/// A coordinate that does not run along the plane fits also where only the plane has
/// another size.
pub proof fn lemma_kept_fits_resized(
    names: PlaneNames,
    name: Seq<char>,
    c: CoordinateView,
    dims: Seq<Seq<char>>,
    shape: Seq<usize>,
    other: Seq<usize>,
)
    requires
        keeps_coordinate(names, name, c.dims),
        fits(c, dims, shape),
        shape.len() == dims.len(),
        other.len() == dims.len(),
        forall|k: int|
            0 <= k < dims.len() && #[trigger] dims[k] != "y"@ && dims[k] != "x"@ ==> other[k]
                == shape[k],
    ensures
        fits(c, dims, other),
{
    assert(coordinate_shape_of(c.dims, dims, shape) =~= coordinate_shape_of(c.dims, dims, other))
        by {
        assert forall|k: int| 0 <= k < c.dims.len() implies shape[position_in(
            dims,
            c.dims[k],
        ) as int] == other[position_in(dims, c.dims[k]) as int] by {
            assert(dims.contains(c.dims[k]));
            lemma_position_in(dims, c.dims[k]);
            assert(!names.covers(c.dims[k]));
            let p = position_in(dims, c.dims[k]) as int;
            assert(dims[p] == c.dims[k]);
        }
    }
}

/// Gives an array the coordinates of its source that are kept.
pub fn add_preserved_coords<T: Copy>(
    array: DataArray<T>,
    names: PlaneNames,
    coords: &TextMap<Coordinate>,
) -> (r: Result<DataArray<T>>)
    ensures
        kept_fit(names, coords@, array@.dims, array@.shape) ==> r is Ok,
        r is Ok ==> kept_fit(names, coords@, array@.dims, array@.shape),
        r is Ok ==> r->Ok_0@ == (ArrayView {
            coords: array@.coords.union_prefer_right(kept_coordinates(names, coords@)),
            ..array@
        }),
        r is Err ==> reports_misfit(
            r,
            names,
            coords@,
            coords.keys(),
            array@.dims,
            array@.shape,
        ),
{
    let ghost start = array@;
    let ghost keys = coords.keys();
    let mut out = array;
    let mut i: usize = 0;
    proof {
        use_type_invariant(coords);
    }
    while i < coords.len()
        invariant
            i <= keys.len(),
            keys == coords.keys(),
            coords.inv(),
            start == array@,
            out@.shape == start.shape,
            out@.dims == start.dims,
            out@.values == start.values,
            out@.mask == start.mask,
            forall|k: Seq<char>| #[trigger]
                out@.coords.dom().contains(k) <==> start.coords.dom().contains(k) || exists|j: int|
                    0 <= j < i && #[trigger] keys[j] == k && keeps_coordinate(
                        names,
                        k,
                        coords@[k].dims,
                    ),
            forall|k: Seq<char>| #[trigger]
                out@.coords.dom().contains(k) ==> out@.coords[k] == if exists|j: int|
                    0 <= j < i && #[trigger] keys[j] == k && keeps_coordinate(
                        names,
                        k,
                        coords@[k].dims,
                    ) {
                    coords@[k]
                } else {
                    start.coords[k]
                },
            forall|j: int|
                0 <= j < i && keeps_coordinate(names, #[trigger] keys[j], coords@[keys[j]].dims)
                    ==> fits(coords@[keys[j]], start.dims, start.shape),
        decreases keys.len() - i,
    {
        let name = coords.key_at(i);
        let coordinate = coords.value_at(i);
        let ghost k0 = keys[i as int];
        let ghost before = out@.coords;
        let keep = should_preserve_coord(names, name.as_str(), coordinate);
        if keep {
            match out.set_coordinate(name.as_str(), coordinate.duplicate()) {
                Ok(()) => {},
                Err(e) => {
                    proof {
                        assert(coords@.dom().contains(keys[i as int]));
                        assert(keeps_coordinate(names, keys[i as int], coords@[keys[i as int]].dims));
                    }
                    return Err(e);
                },
            }
        }
        proof {
            assert forall|k: Seq<char>| #[trigger]
                out@.coords.dom().contains(k) <==> start.coords.dom().contains(k) || exists|j: int|
                    0 <= j < i + 1 && #[trigger] keys[j] == k && keeps_coordinate(
                        names,
                        k,
                        coords@[k].dims,
                    ) by {
                if k == k0 && keep {
                    assert(keys[i as int] == k);
                }
                if before.dom().contains(k) && !start.coords.dom().contains(k) {
                    let j = choose|j: int|
                        0 <= j < i && #[trigger] keys[j] == k && keeps_coordinate(
                            names,
                            k,
                            coords@[k].dims,
                        );
                    assert(keys[j] == k);
                }
            }
            assert forall|k: Seq<char>| #[trigger] out@.coords.dom().contains(k) implies out@.coords[k]
                == if exists|j: int|
                0 <= j < i + 1 && #[trigger] keys[j] == k && keeps_coordinate(
                    names,
                    k,
                    coords@[k].dims,
                ) {
                coords@[k]
            } else {
                start.coords[k]
            } by {
                let old_has = exists|j: int|
                    0 <= j < i && #[trigger] keys[j] == k && keeps_coordinate(
                        names,
                        k,
                        coords@[k].dims,
                    );
                if old_has {
                    let j = choose|j: int|
                        0 <= j < i && #[trigger] keys[j] == k && keeps_coordinate(
                            names,
                            k,
                            coords@[k].dims,
                        );
                    assert(keys[j] == k);
                }
                if k == k0 && keep {
                    assert(keys[i as int] == k);
                } else {
                    assert(before.dom().contains(k));
                }
            }
        }
        i = i + 1;
    }
    proof {
        let kept = kept_coordinates(names, coords@);
        assert forall|k: Seq<char>| #[trigger] kept.dom().contains(k) implies exists|j: int|
            0 <= j < keys.len() && #[trigger] keys[j] == k && keeps_coordinate(
                names,
                k,
                coords@[k].dims,
            ) by {
            assert(keys.to_set().contains(k));
            let j = choose|j: int| 0 <= j < keys.len() && keys[j] == k;
            assert(keys[j] == k);
        }
        assert forall|k: Seq<char>|
            (exists|j: int|
                0 <= j < keys.len() && #[trigger] keys[j] == k && keeps_coordinate(
                    names,
                    k,
                    coords@[k].dims,
                )) implies #[trigger] kept.dom().contains(k) by {
            let j = choose|j: int|
                0 <= j < keys.len() && #[trigger] keys[j] == k && keeps_coordinate(
                    names,
                    k,
                    coords@[k].dims,
                );
            assert(keys.to_set().contains(keys[j]));
        }
        assert(out@.coords =~= start.coords.union_prefer_right(kept));
        assert forall|k: Seq<char>| #[trigger]
            coords@.dom().contains(k) && keeps_coordinate(names, k, coords@[k].dims) implies fits(
            coords@[k],
            start.dims,
            start.shape,
        ) by {
            assert(kept.dom().contains(k));
            let j = choose|j: int|
                0 <= j < keys.len() && #[trigger] keys[j] == k && keeps_coordinate(
                    names,
                    k,
                    coords@[k].dims,
                );
            assert(fits(coords@[keys[j]], start.dims, start.shape));
        }
    }
    Ok(out)
}

/// The coordinates of a plane: `x` and `y` along its axes.
pub open spec fn plane_coordinates(
    coords: Map<Seq<char>, CoordinateView>,
    g: AreaGridView,
) -> Map<Seq<char>, CoordinateView> {
    coords.insert("x"@, CoordinateView { dims: seq!["x"@], values: g.x }).insert(
        "y"@,
        CoordinateView { dims: seq!["y"@], values: g.y },
    )
}

/// Whether an array has the pixels of a plane along its dimensions `y` and `x`.
pub open spec fn has_plane<T>(a: ArrayView<T>, g: AreaGridView) -> bool {
    &&& a.dims.contains("y"@)
    &&& a.dims.contains("x"@)
    &&& size_along(a, "y"@) == g.area.height
    &&& size_along(a, "x"@) == g.area.width
}

/// An axis coordinate fits where it has one value per position.
pub proof fn lemma_axis_fits(
    name: Seq<char>,
    values: Seq<F64>,
    dims: Seq<Seq<char>>,
    shape: Seq<usize>,
)
    requires
        dims.contains(name),
        shape[position_in(dims, name) as int] == values.len(),
    ensures
        fits(CoordinateView { dims: seq![name], values }, dims, shape),
{
    let n = shape[position_in(dims, name) as int];
    let c = coordinate_shape_of(seq![name], dims, shape);
    assert(c =~= seq![n]);
    assert(size_of_shape(c) == n) by {
        reveal_with_fuel(size_of_shape, 2);
        assert(c.drop_first().len() == 0);
    }
    assert(seq![name].no_duplicates());
    assert forall|k: int| 0 <= k < seq![name].len() implies dims.contains(#[trigger] seq![name][k]) by {
        assert(seq![name][k] == name);
    }
}

/// Gives an array the coordinates of the target plane.
pub fn add_plane_coords<T: Copy>(array: DataArray<T>, grid: &AreaGrid) -> (r: Result<DataArray<T>>)
    requires
        has_plane(array@, grid@),
    ensures
        r is Ok,
        r->Ok_0@ == (ArrayView { coords: plane_coordinates(array@.coords, grid@), ..array@ }),
{
    let mut out = array;
    proof {
        use_type_invariant(grid);
        lemma_axis_fits("x"@, grid@.x, array@.dims, array@.shape);
        lemma_axis_fits("y"@, grid@.y, array@.dims, array@.shape);
    }
    match out.set_coordinate("x", Coordinate::axis("x", copy_values(grid.x()))) {
        Ok(()) => {},
        Err(e) => {
            return Err(e);
        },
    }
    match out.set_coordinate("y", Coordinate::axis("y", copy_values(grid.y()))) {
        Ok(()) => {},
        Err(e) => {
            return Err(e);
        },
    }
    Ok(out)
}

/// A mask with these flags, where one of them is set.
pub open spec fn mask_of(flags: Seq<bool>) -> Option<Seq<bool>> {
    if any_set(flags) {
        Some(flags)
    } else {
        None
    }
}

/// An array with a mask where some element is masked.
pub fn finish_array<T: Copy>(
    shape: Vec<usize>,
    dims: Vec<String>,
    values: Vec<T>,
    mask_flags: Vec<bool>,
) -> (r: Result<DataArray<T>>)
    requires
        dims@.len() == shape@.len(),
        texts(dims@).no_duplicates(),
        values@.len() == size_of_shape(shape@),
        any_set(mask_flags@) ==> mask_flags@.len() == values@.len(),
    ensures
        r is Ok,
        r->Ok_0@ == (ArrayView {
            shape: shape@,
            dims: texts(dims@),
            values: values@,
            mask: mask_of(mask_flags@),
            coords: Map::empty(),
        }),
{
    match DataArray::from_vec_named(shape, dims, values) {
        Ok(array) => {
            if has_set(&mask_flags) {
                array.with_mask(ValidityMask::from_masked_flags(mask_flags))
            } else {
                Ok(array)
            }
        },
        Err(e) => Err(e),
    }
}

/// The plane with these values and flags, without coordinates.
pub open spec fn plane_view<T>(
    height: usize,
    width: usize,
    values: Seq<T>,
    flags: Seq<bool>,
) -> ArrayView<T> {
    ArrayView {
        shape: seq![height, width],
        dims: seq!["y"@, "x"@],
        values,
        mask: mask_of(flags),
        coords: Map::empty(),
    }
}

/// A plane with a mask where some pixel is masked.
pub fn finish_grid<T: Copy>(
    height: usize,
    width: usize,
    values: Vec<T>,
    mask_flags: Vec<bool>,
) -> (r: Result<DataArray<T>>)
    requires
        values@.len() == height * width,
        any_set(mask_flags@) ==> mask_flags@.len() == values@.len(),
    ensures
        r is Ok,
        r->Ok_0@ == plane_view(height, width, values@, mask_flags@),
{
    match DataArray::new(height, width, values) {
        Ok(array) => {
            if has_set(&mask_flags) {
                array.with_mask(ValidityMask::from_masked_flags(mask_flags))
            } else {
                Ok(array)
            }
        },
        Err(e) => Err(e),
    }
}

/// Whether an array is a plane.
pub open spec fn is_plane<T>(a: ArrayView<T>) -> bool {
    a.dims == seq!["y"@, "x"@]
}

/// The coordinates of an array that are kept, where there is one.
pub open spec fn kept_of(names: PlaneNames, source: Option<ArrayView<F64>>) -> Map<
    Seq<char>,
    CoordinateView,
> {
    match source {
        Some(a) => kept_coordinates(names, a.coords),
        None => Map::empty(),
    }
}

/// A resampled plane: its values and its mask, the coordinates that are kept from the
/// source, and those of the target.
pub open spec fn plane_with(
    names: PlaneNames,
    source: Option<ArrayView<F64>>,
    g: AreaGridView,
    values: Seq<F64>,
    mask: Option<Seq<bool>>,
) -> ArrayView<F64> {
    ArrayView {
        shape: seq![g.area.height, g.area.width],
        dims: seq!["y"@, "x"@],
        values,
        mask,
        coords: plane_coordinates(kept_of(names, source), g),
    }
}

/// A resampled plane with a mask where some pixel is masked.
pub open spec fn resampled_plane(
    source: Option<ArrayView<F64>>,
    g: AreaGridView,
    values: Seq<F64>,
    flags: Seq<bool>,
) -> ArrayView<F64> {
    plane_with(PlaneNames::Area, source, g, values, mask_of(flags))
}

/// The grid of an array, where there is one.
pub open spec fn grid_view(source: Option<&DataArray<F64>>) -> Option<ArrayView<F64>> {
    match source {
        Some(a) => Some(a@),
        None => None,
    }
}

/// Makes a resampled plane of its values and its mask.
pub fn finish_plane_with(
    names: PlaneNames,
    source: Option<&DataArray<F64>>,
    destination: &AreaGrid,
    values: Vec<F64>,
    mask: Option<ValidityMask>,
) -> (r: Result<DataArray<F64>>)
    requires
        source is Some ==> is_plane(source->Some_0@),
        values@.len() == destination@.area.height * destination@.area.width,
        mask is Some ==> mask->Some_0@.len() == values@.len(),
    ensures
        r is Ok,
        r->Ok_0@ == plane_with(
            names,
            grid_view(source),
            destination@,
            values@,
            crate::array::mask_view(mask),
        ),
{
    proof {
        use_type_invariant(destination);
        crate::array::lemma_y_is_not_x();
    }
    let (height, width) = destination.shape();
    let ghost g = destination@;
    let grid = match DataArray::new(height, width, values) {
        Ok(grid) => grid,
        Err(e) => {
            return Err(e);
        },
    };
    let grid = match mask {
        Some(m) => match grid.with_mask(m) {
            Ok(grid) => grid,
            Err(e) => {
                return Err(e);
            },
        },
        None => grid,
    };
    let grid = match source {
        Some(array) => {
            proof {
                use_type_invariant(array);
                let a = array@;
                assert forall|k: Seq<char>| #[trigger] a.coords.dom().contains(k)
                    && keeps_coordinate(names, k, a.coords[k].dims) implies fits(
                    a.coords[k],
                    grid@.dims,
                    grid@.shape,
                ) by {
                    lemma_kept_fits_resized(
                        names,
                        k,
                        a.coords[k],
                        a.dims,
                        a.shape,
                        grid@.shape,
                    );
                }
                assert(kept_fit(names, a.coords, grid@.dims, grid@.shape));
                assert(Map::<Seq<char>, CoordinateView>::empty().union_prefer_right(
                    kept_of(names, Some(a)),
                ) =~= kept_of(names, Some(a)));
            }
            match add_preserved_coords(grid, names, array.coords()) {
                Ok(grid) => grid,
                Err(e) => {
                    return Err(e);
                },
            }
        },
        None => grid,
    };
    proof {
        let dims = seq!["y"@, "x"@];
        assert(dims[0] == "y"@ && dims[1] == "x"@);
        lemma_position_in(dims, "y"@);
        lemma_position_in(dims, "x"@);
        assert(has_plane(grid@, g));
    }
    add_plane_coords(grid, destination)
}

/// Makes a resampled plane of its values and the flags of its mask.
pub fn finish_plane(
    source: Option<&DataArray<F64>>,
    destination: &AreaGrid,
    values: Vec<F64>,
    mask_flags: Vec<bool>,
) -> (r: Result<DataArray<F64>>)
    requires
        source is Some ==> is_plane(source->Some_0@),
        values@.len() == destination@.area.height * destination@.area.width,
        mask_flags@.len() == values@.len(),
    ensures
        r is Ok,
        r->Ok_0@ == resampled_plane(grid_view(source), destination@, values@, mask_flags@),
{
    let mask = if has_set(&mask_flags) {
        Some(ValidityMask::from_masked_flags(mask_flags))
    } else {
        None
    };
    finish_plane_with(PlaneNames::Area, source, destination, values, mask)
}

/// Whether a plane has the size of an area and its coordinates along the axes.
pub open spec fn keeps_axes(out: ArrayView<F64>, g: AreaGridView) -> bool {
    &&& out.shape == seq![g.area.height, g.area.width]
    &&& out.dims == seq!["y"@, "x"@]
    &&& out.coords.contains_key("x"@) && out.coords["x"@].dims == seq!["x"@]
        && out.coords["x"@].values == g.x
    &&& out.coords.contains_key("y"@) && out.coords["y"@].dims == seq!["y"@]
        && out.coords["y"@].values == g.y
}

/// A resampled plane has the axes of the target, and keeps from the source the coordinates
/// that do not lie in its plane, and no others.
pub proof fn lemma_axes_kept(names: PlaneNames, source: Option<ArrayView<F64>>, g: AreaGridView)
    ensures
        forall|values: Seq<F64>, mask: Option<Seq<bool>>| #[trigger]
            keeps_axes(plane_with(names, source, g, values, mask), g),
        forall|values: Seq<F64>, mask: Option<Seq<bool>>, k: Seq<char>|
            k != "x"@ && k != "y"@ && #[trigger] plane_with(
                names,
                source,
                g,
                values,
                mask,
            ).coords.contains_key(k) ==> {
                &&& source is Some && source->Some_0.coords.contains_key(k)
                &&& plane_with(names, source, g, values, mask).coords[k] == source->Some_0.coords[k]
                &&& !source->Some_0.coords[k].dims.contains("y"@)
                &&& !source->Some_0.coords[k].dims.contains("x"@)
                &&& k != "crs"@
                &&& names is Swath ==> k != "longitude"@ && k != "latitude"@
            },
        forall|values: Seq<F64>, mask: Option<Seq<bool>>, k: Seq<char>|
            source is Some && source->Some_0.coords.contains_key(k) && k != "x"@ && k != "y"@ && k
                != "crs"@ && k != "longitude"@ && k != "latitude"@ && (forall|i: int|
                0 <= i < source->Some_0.coords[k].dims.len() ==> (
                #[trigger] source->Some_0.coords[k].dims[i]) != "y"@
                    && source->Some_0.coords[k].dims[i] != "x"@ && source->Some_0.coords[k].dims[i]
                    != "crs"@ && source->Some_0.coords[k].dims[i] != "longitude"@
                    && source->Some_0.coords[k].dims[i] != "latitude"@) ==> #[trigger] plane_with(
                names,
                source,
                g,
                values,
                mask,
            ).coords.contains_key(k),
{
    lemma_y_is_not_x();
}

/// Whether a resampled plane of a swath has the axes of the target, and of the other coordinates
/// of the source exactly those that do not lie in its plane and are not positions.
pub open spec fn keeps_swath_coordinates(
    out: ArrayView<F64>,
    a: ArrayView<F64>,
    g: AreaGridView,
) -> bool {
    &&& keeps_axes(out, g)
    &&& !out.coords.contains_key("longitude"@) && !out.coords.contains_key("latitude"@)
    &&& forall|k: Seq<char>|
        k != "x"@ && k != "y"@ && #[trigger] out.coords.contains_key(k) ==> a.coords.contains_key(k)
            && out.coords[k] == a.coords[k] && !a.coords[k].dims.contains("y"@)
            && !a.coords[k].dims.contains("x"@)
    &&& forall|k: Seq<char>| #[trigger]
        a.coords.contains_key(k) && a.coords[k].dims.len() == 0 && k != "x"@ && k != "y"@ && k
            != "crs"@ && k != "longitude"@ && k != "latitude"@ ==> out.coords.contains_key(k)
}

/// A resampled plane of a swath keeps these coordinates.
pub proof fn lemma_swath_coordinates_kept(
    a: ArrayView<F64>,
    g: AreaGridView,
    values: Seq<F64>,
    mask: Option<Seq<bool>>,
)
    ensures
        keeps_swath_coordinates(plane_with(PlaneNames::Swath, Some(a), g, values, mask), a, g),
{
    lemma_axes_kept(PlaneNames::Swath, Some(a), g);
    let out = plane_with(PlaneNames::Swath, Some(a), g, values, mask);
    reveal_strlit("x");
    reveal_strlit("y");
    reveal_strlit("longitude");
    reveal_strlit("latitude");
    assert("x"@.len() == 1 && "y"@.len() == 1 && "longitude"@.len() == 9 && "latitude"@.len() == 8);
    assert(keeps_axes(out, g));
}

} // verus!
