//! What the kinds of geometry have in common, and geometries given by positions.

use crate::array::copy_values;
use crate::error::{fails_with, is_invalid, ErrorView, Result, RustySatError};
use crate::nd_utils::size_of_shape;
use crate::number::F64;
use crate::text::{decimal, join2, join5, list_notation, list_text, size_text};
use vstd::prelude::*;

verus! {

#[derive(Clone, Copy, Debug, PartialEq, Eq, Structural)]
pub enum GeometryKind {
    Area,
    Swath,
    Coordinate,
    Grid,
}

/// A geometry: its kind and its shape.
pub trait GeometryDefinition {
    spec fn kind_spec(&self) -> GeometryKind;

    spec fn shape_spec(&self) -> Seq<usize>;

    fn kind(&self) -> (r: GeometryKind)
        ensures
            r == self.kind_spec(),
    ;

    fn shape(&self) -> (r: Vec<usize>)
        ensures
            r@ == self.shape_spec(),
    ;

    /// The number of dimensions.
    fn ndim(&self) -> (r: usize)
        ensures
            r == self.shape_spec().len(),
    {
        self.shape().len()
    }

    /// The number of elements.
    fn size(&self) -> (r: usize)
        requires
            all_prefixes_fit(self.shape_spec()),
        ensures
            r == size_of_shape(self.shape_spec()),
    {
        let shape = self.shape();
        product_of(&shape)
    }

    /// Whether there is no element.
    fn is_empty(&self) -> (r: bool)
        requires
            all_prefixes_fit(self.shape_spec()),
        ensures
            r == (size_of_shape(self.shape_spec()) == 0),
    {
        let shape = self.shape();
        product_of(&shape) == 0
    }
}

/// Whether `p` holds the width and the height of a pixel: what `size` makes of the bounds of
/// an extent and of the number of pixels between them.
pub open spec fn is_pixel_size<Z: Fn(F64, F64, usize) -> F64>(
    size: Z,
    extent: Seq<F64>,
    shape: Seq<usize>,
    p: (F64, F64),
) -> bool {
    size.ensures((extent[0], extent[2], shape[1]), p.0) && size.ensures(
        (extent[1], extent[3], shape[0]),
        p.1,
    )
}

/// A plane of pixels with an extent.
pub trait ProjectionDefinition: GeometryDefinition {
    /// Lower left x, lower left y, upper right x and upper right y.
    spec fn extent_spec(&self) -> Seq<F64>;

    fn width(&self) -> (r: usize)
        ensures
            self.shape_spec().len() == 2,
            r == self.shape_spec()[1],
    ;

    fn height(&self) -> (r: usize)
        ensures
            self.shape_spec().len() == 2,
            r == self.shape_spec()[0],
    ;

    fn area_extent(&self) -> (r: [F64; 4])
        ensures
            r@ == self.extent_spec(),
    ;

    /// The width and the height of a pixel. `size` is a part of the way between two bounds,
    /// of so many parts.
    fn pixel_size<Z: Fn(F64, F64, usize) -> F64>(&self, size: &Z) -> (r: (F64, F64))
        requires
            forall|a: F64, b: F64, n: usize| #[trigger] size.requires((a, b, n)),
        ensures
            is_pixel_size(*size, self.extent_spec(), self.shape_spec(), r),
    ;

    /// The upper left corner of the extent.
    fn upper_left_extent(&self) -> (r: (F64, F64))
        ensures
            r == (self.extent_spec()[0], self.extent_spec()[3]),
    {
        let extent = self.area_extent();
        (extent[0], extent[3])
    }

    /// The centre of the upper left pixel. `right` and `down` go half a pixel from a bound.
    fn pixel_upper_left<
        Z: Fn(F64, F64, usize) -> F64,
        R: Fn(F64, F64) -> F64,
        D: Fn(F64, F64) -> F64,
    >(&self, size: &Z, right: &R, down: &D) -> (r: (F64, F64))
        requires
            forall|a: F64, b: F64, n: usize| #[trigger] size.requires((a, b, n)),
            forall|a: F64, b: F64| #[trigger] right.requires((a, b)),
            forall|a: F64, b: F64| #[trigger] down.requires((a, b)),
        ensures
            exists|p: (F64, F64)| #[trigger]
                is_pixel_size(*size, self.extent_spec(), self.shape_spec(), p) && right.ensures(
                    (self.extent_spec()[0], p.0),
                    r.0,
                ) && down.ensures((self.extent_spec()[3], p.1), r.1),
    {
        let p = self.pixel_size(size);
        let corner = self.upper_left_extent();
        assert(is_pixel_size(*size, self.extent_spec(), self.shape_spec(), p));
        (right(corner.0, p.0), down(corner.1, p.1))
    }

    /// How far the origin lies from the upper left corner, in pixels. `right` and `down` are
    /// the ways from a bound in pixels of a size.
    fn pixel_offset<
        Z: Fn(F64, F64, usize) -> F64,
        R: Fn(F64, F64) -> F64,
        D: Fn(F64, F64) -> F64,
    >(&self, size: &Z, right: &R, down: &D) -> (r: (F64, F64))
        requires
            forall|a: F64, b: F64, n: usize| #[trigger] size.requires((a, b, n)),
            forall|a: F64, b: F64| #[trigger] right.requires((a, b)),
            forall|a: F64, b: F64| #[trigger] down.requires((a, b)),
        ensures
            exists|p: (F64, F64)| #[trigger]
                is_pixel_size(*size, self.extent_spec(), self.shape_spec(), p) && right.ensures(
                    (self.extent_spec()[0], p.0),
                    r.0,
                ) && down.ensures((self.extent_spec()[3], p.1), r.1),
    {
        let p = self.pixel_size(size);
        let extent = self.area_extent();
        assert(is_pixel_size(*size, self.extent_spec(), self.shape_spec(), p));
        (right(extent[0], p.0), down(extent[3], p.1))
    }
}

/// Whether the product of each leading part of a shape fits the machine.
pub open spec fn all_prefixes_fit(shape: Seq<usize>) -> bool {
    forall|k: int| 0 <= k <= shape.len() ==> #[trigger] size_of_shape(shape.take(k)) <= usize::MAX
}

fn product_of(shape: &Vec<usize>) -> (r: usize)
    requires
        all_prefixes_fit(shape@),
    ensures
        r == size_of_shape(shape@),
{
    let mut acc: usize = 1;
    let mut i: usize = 0;
    while i < shape.len()
        invariant
            i <= shape@.len(),
            all_prefixes_fit(shape@),
            acc == size_of_shape(shape@.take(i as int)),
        decreases shape@.len() - i,
    {
        proof {
            crate::nd_utils::lemma_size_push(shape@.take(i as int), shape@[i as int]);
            assert(shape@.take(i + 1) =~= shape@.take(i as int).push(shape@[i as int]));
            assert(size_of_shape(shape@.take(i + 1)) <= usize::MAX);
        }
        acc = acc * shape[i];
        i = i + 1;
    }
    assert(shape@.take(shape@.len() as int) =~= shape@);
    acc
}

/// A geometry by positions as a mathematical value.
#[verifier::ext_equal]
pub struct CoordinateDefinitionView {
    pub shape: Seq<usize>,
    pub lons: Seq<F64>,
    pub lats: Seq<F64>,
}

/// Positions in an array of any shape.
#[derive(Debug, PartialEq)]
pub struct CoordinateDefinition {
    shape: Vec<usize>,
    lons: Vec<F64>,
    lats: Vec<F64>,
}

impl View for CoordinateDefinition {
    type V = CoordinateDefinitionView;

    closed spec fn view(&self) -> CoordinateDefinitionView {
        CoordinateDefinitionView { shape: self.shape@, lons: self.lons@, lats: self.lats@ }
    }
}

impl Clone for CoordinateDefinition {
    fn clone(&self) -> (r: Self)
        ensures
            r@ == self@,
    {
        proof {
            use_type_invariant(self);
        }
        CoordinateDefinition {
            shape: copy_values(&self.shape),
            lons: copy_values(&self.lons),
            lats: copy_values(&self.lats),
        }
    }
}

pub open spec fn all_finite(values: Seq<F64>) -> bool {
    forall|i: int| 0 <= i < values.len() ==> (#[trigger] values[i]).finite()
}

/// Whether a zero dimension stands in a shape.
pub open spec fn has_zero(shape: Seq<usize>) -> bool {
    exists|k: int| 0 <= k < shape.len() && shape[k] == 0
}

/// The first obstacle of a shape and positions, if there is one. `context` names the
/// geometry.
pub open spec fn position_error(
    context: Seq<char>,
    shape: Seq<usize>,
    lons: Seq<F64>,
    lats: Seq<F64>,
) -> Option<ErrorView> {
    if shape.len() == 0 {
        Some(ErrorView::InvalidInput(context + " shape cannot be empty"@))
    } else if has_zero(shape) {
        Some(ErrorView::InvalidInput(context + " dimensions must be non-zero"@))
    } else if lons.len() != lats.len() {
        Some(ErrorView::InvalidInput(context + " lons and lats must have the same length"@))
    } else if size_of_shape(shape) > usize::MAX {
        Some(ErrorView::InvalidInput(context + " shape size overflows usize"@))
    } else if lons.len() != size_of_shape(shape) {
        Some(
            ErrorView::InvalidInput(
                context + " coordinate length "@ + decimal(lons.len()) + " does not match shape "@
                    + list_notation(shape),
            ),
        )
    } else if !(all_finite(lons) && all_finite(lats)) {
        Some(ErrorView::InvalidInput(context + " coordinates must be finite"@))
    } else {
        None
    }
}

fn finite_list(values: &Vec<F64>) -> (r: bool)
    ensures
        r == all_finite(values@),
{
    let mut i: usize = 0;
    while i < values.len()
        invariant
            i <= values@.len(),
            forall|j: int| 0 <= j < i ==> (#[trigger] values@[j]).finite(),
        decreases values@.len() - i,
    {
        if !values[i].is_finite() {
            return false;
        }
        i = i + 1;
    }
    true
}

fn context_error(context: &str, text: &str) -> (r: RustySatError)
    ensures
        r@ == ErrorView::InvalidInput(context@ + text@),
{
    let joined = join2(context, text);
    RustySatError::invalid_input(joined.as_str())
}

pub(crate) fn validate_shape(shape: &Vec<usize>, context: &str) -> (r: Result<()>)
    ensures
        shape@.len() == 0 ==> is_invalid(r, context@ + " shape cannot be empty"@),
        shape@.len() > 0 && has_zero(shape@) ==> is_invalid(
            r,
            context@ + " dimensions must be non-zero"@,
        ),
        shape@.len() > 0 && !has_zero(shape@) ==> r is Ok,
{
    if shape.len() == 0 {
        return Err(context_error(context, " shape cannot be empty"));
    }
    let mut i: usize = 0;
    while i < shape.len()
        invariant
            i <= shape@.len(),
            forall|j: int| 0 <= j < i ==> shape@[j] > 0,
        decreases shape@.len() - i,
    {
        if shape[i] == 0 {
            assert(has_zero(shape@));
            return Err(context_error(context, " dimensions must be non-zero"));
        }
        i = i + 1;
    }
    Ok(())
}

pub(crate) fn validate_lonlat_vectors(
    shape: &Vec<usize>,
    lons: &Vec<F64>,
    lats: &Vec<F64>,
    context: &str,
) -> (r: Result<()>)
    requires
        shape@.len() > 0,
        !has_zero(shape@),
    ensures
        match position_error(context@, shape@, lons@, lats@) {
            Some(e) => fails_with(r, e),
            None => r is Ok,
        },
{
    if lons.len() != lats.len() {
        return Err(context_error(context, " lons and lats must have the same length"));
    }
    let mut expected: usize = 1;
    let mut i: usize = 0;
    assert(crate::nd_utils::no_zero(shape@));
    while i < shape.len()
        invariant
            i <= shape@.len(),
            shape@.len() > 0,
            !has_zero(shape@),
            lons@.len() == lats@.len(),
            crate::nd_utils::no_zero(shape@),
            expected == size_of_shape(shape@.take(i as int)),
        decreases shape@.len() - i,
    {
        proof {
            crate::nd_utils::lemma_size_push(shape@.take(i as int), shape@[i as int]);
            assert(shape@.take(i + 1) =~= shape@.take(i as int).push(shape@[i as int]));
            crate::nd_utils::lemma_part_bounded(shape@, i + 1);
        }
        match expected.checked_mul(shape[i]) {
            Some(n) => {
                expected = n;
            },
            None => {
                return Err(context_error(context, " shape size overflows usize"));
            },
        }
        i = i + 1;
    }
    assert(shape@.take(shape@.len() as int) =~= shape@);
    if lons.len() != expected {
        let n = size_text(lons.len());
        let s = list_text(shape.as_slice());
        let text = join5(
            context,
            " coordinate length ",
            n.as_str(),
            " does not match shape ",
            s.as_str(),
        );
        return Err(RustySatError::invalid_input(text.as_str()));
    }
    if !(finite_list(lons) && finite_list(lats)) {
        return Err(context_error(context, " coordinates must be finite"));
    }
    Ok(())
}

impl CoordinateDefinition {
    #[verifier::type_invariant]
    pub open spec fn inv(&self) -> bool {
        position_error("coordinate definition"@, self@.shape, self@.lons, self@.lats) is None
    }

    pub fn from_lonlats(shape: Vec<usize>, lons: Vec<F64>, lats: Vec<F64>) -> (r: Result<Self>)
        ensures
            match position_error("coordinate definition"@, shape@, lons@, lats@) {
                Some(e) => fails_with(r, e),
                None => r is Ok && r->Ok_0@ == (CoordinateDefinitionView {
                    shape: shape@,
                    lons: lons@,
                    lats: lats@,
                }),
            },
    {
        match validate_shape(&shape, "coordinate definition") {
            Ok(()) => {},
            Err(e) => {
                return Err(e);
            },
        }
        match validate_lonlat_vectors(&shape, &lons, &lats, "coordinate definition") {
            Ok(()) => {},
            Err(e) => {
                return Err(e);
            },
        }
        Ok(CoordinateDefinition { shape, lons, lats })
    }

    pub fn lons(&self) -> (r: &Vec<F64>)
        ensures
            r@ == self@.lons,
    {
        &self.lons
    }

    pub fn lats(&self) -> (r: &Vec<F64>)
        ensures
            r@ == self@.lats,
    {
        &self.lats
    }

    pub fn into_lonlats(self) -> (r: (Vec<F64>, Vec<F64>))
        ensures
            r.0@ == self@.lons,
            r.1@ == self@.lats,
    {
        (self.lons, self.lats)
    }

    /// Whether two geometries have the same shape and `close` holds of all coordinates
    /// in turn.
    pub fn approximate_eq<C: Fn(F64, F64) -> bool>(&self, other: &Self, close: &C) -> (r: bool)
        requires
            forall|a: F64, b: F64| #[trigger] close.requires((a, b)),
        ensures
            r ==> self@.shape == other@.shape && all_close(self@.lons, other@.lons, *close)
                && all_close(self@.lats, other@.lats, *close),
            !r ==> self@.shape != other@.shape || some_apart(self@.lons, other@.lons, *close)
                || some_apart(self@.lats, other@.lats, *close),
    {
        proof {
            use_type_invariant(self);
            use_type_invariant(other);
        }
        if !same_sizes(&self.shape, &other.shape) {
            return false;
        }
        coords_approx_eq(&self.lons, &other.lons, close) && coords_approx_eq(
            &self.lats,
            &other.lats,
            close,
        )
    }
}

/// Whether `close` may hold of each pair of numbers at the same place.
pub open spec fn all_close<C: Fn(F64, F64) -> bool>(a: Seq<F64>, b: Seq<F64>, close: C) -> bool {
    &&& a.len() == b.len()
    &&& forall|i: int| 0 <= i < a.len() ==> close.ensures((#[trigger] a[i], b[i]), true)
}

/// Whether `close` may fail of some pair of numbers at the same place.
pub open spec fn some_apart<C: Fn(F64, F64) -> bool>(a: Seq<F64>, b: Seq<F64>, close: C) -> bool {
    ||| a.len() != b.len()
    ||| exists|i: int| 0 <= i < a.len() && close.ensures((#[trigger] a[i], b[i]), false)
}

fn coords_approx_eq<C: Fn(F64, F64) -> bool>(left: &Vec<F64>, right: &Vec<F64>, close: &C) -> (r:
    bool)
    requires
        forall|a: F64, b: F64| #[trigger] close.requires((a, b)),
    ensures
        r ==> all_close(left@, right@, *close),
        !r ==> some_apart(left@, right@, *close),
{
    if left.len() != right.len() {
        return false;
    }
    let mut i: usize = 0;
    while i < left.len()
        invariant
            i <= left@.len(),
            left@.len() == right@.len(),
            forall|a: F64, b: F64| #[trigger] close.requires((a, b)),
            forall|j: int| 0 <= j < i ==> close.ensures((#[trigger] left@[j], right@[j]), true),
        decreases left@.len() - i,
    {
        let c = close(left[i], right[i]);
        if !c {
            assert(close.ensures((left@[i as int], right@[i as int]), false));
            return false;
        }
        i = i + 1;
    }
    true
}

pub fn same_sizes(a: &Vec<usize>, b: &Vec<usize>) -> (r: bool)
    ensures
        r == (a@ == b@),
{
    if a.len() != b.len() {
        return false;
    }
    let mut i: usize = 0;
    while i < a.len()
        invariant
            i <= a@.len(),
            a@.len() == b@.len(),
            forall|j: int| 0 <= j < i ==> a@[j] == b@[j],
        decreases a@.len() - i,
    {
        if a[i] != b[i] {
            return false;
        }
        i = i + 1;
    }
    assert(a@ =~= b@);
    true
}

impl GeometryDefinition for CoordinateDefinition {
    open spec fn kind_spec(&self) -> GeometryKind {
        GeometryKind::Coordinate
    }

    open spec fn shape_spec(&self) -> Seq<usize> {
        self@.shape
    }

    fn kind(&self) -> (r: GeometryKind) {
        GeometryKind::Coordinate
    }

    fn shape(&self) -> (r: Vec<usize>) {
        copy_values(&self.shape)
    }
}

/// Positions in a plane.
#[derive(Debug, PartialEq)]
pub struct GridDefinition {
    coordinates: CoordinateDefinition,
}

impl View for GridDefinition {
    type V = CoordinateDefinitionView;

    closed spec fn view(&self) -> CoordinateDefinitionView {
        self.coordinates@
    }
}

impl Clone for GridDefinition {
    fn clone(&self) -> (r: Self)
        ensures
            r@ == self@,
    {
        GridDefinition {
            coordinates: self.coordinates.clone(),
        }
    }
}

impl GridDefinition {
    pub fn from_lonlats(height: usize, width: usize, lons: Vec<F64>, lats: Vec<F64>) -> (r: Result<
        Self,
    >)
        ensures
            match position_error("coordinate definition"@, seq![height, width], lons@, lats@) {
                Some(e) => fails_with(r, e),
                None => r is Ok && r->Ok_0@ == (CoordinateDefinitionView {
                    shape: seq![height, width],
                    lons: lons@,
                    lats: lats@,
                }),
            },
    {
        let mut shape: Vec<usize> = Vec::new();
        shape.push(height);
        shape.push(width);
        assert(shape@ =~= seq![height, width]);
        match CoordinateDefinition::from_lonlats(shape, lons, lats) {
            Ok(coordinates) => Ok(GridDefinition { coordinates }),
            Err(e) => Err(e),
        }
    }

    pub fn coordinates(&self) -> (r: &CoordinateDefinition)
        ensures
            r@ == self@,
    {
        &self.coordinates
    }

    pub fn lons(&self) -> (r: &Vec<F64>)
        ensures
            r@ == self@.lons,
    {
        self.coordinates.lons()
    }

    pub fn lats(&self) -> (r: &Vec<F64>)
        ensures
            r@ == self@.lats,
    {
        self.coordinates.lats()
    }
}

impl GeometryDefinition for GridDefinition {
    open spec fn kind_spec(&self) -> GeometryKind {
        GeometryKind::Grid
    }

    open spec fn shape_spec(&self) -> Seq<usize> {
        self@.shape
    }

    fn kind(&self) -> (r: GeometryKind) {
        GeometryKind::Grid
    }

    fn shape(&self) -> (r: Vec<usize>) {
        copy_values(&self.coordinates.shape)
    }
}

} // verus!
