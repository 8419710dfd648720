//! Arrays with named dimensions, coordinates and a validity mask.

use crate::error::{is_invalid, Result, RustySatError};
use crate::nd_utils::{checked_shape_size, no_zero, size_of_shape};
use crate::number::{F32, F64};
use crate::text::{copy_texts, join3, owned, position_in, position_of, same_text, texts};
use crate::text_map::{Duplicate, TextMap};
use crate::widening::{is_integer, is_widened};
use vstd::prelude::*;

verus! {

/// A copy of a list of plain values.
pub fn copy_values<T: Copy>(list: &Vec<T>) -> (r: Vec<T>)
    ensures
        r@ == list@,
{
    let mut out: Vec<T> = Vec::new();
    let mut i: usize = 0;
    while i < list.len()
        invariant
            i <= list@.len(),
            out@ == list@.take(i as int),
        decreases list@.len() - i,
    {
        out.push(list[i]);
        assert(list@.take(i + 1) =~= list@.take(i as int).push(list@[i as int]));
        i = i + 1;
    }
    assert(list@.take(list@.len() as int) =~= list@);
    out
}

/// The number of flags that are set.
pub open spec fn count_set(flags: Seq<bool>) -> nat
    decreases flags.len(),
{
    if flags.len() == 0 {
        0
    } else {
        count_set(flags.drop_last()) + if flags.last() {
            1nat
        } else {
            0nat
        }
    }
}

/// Whether some flag is set.
pub open spec fn any_set(flags: Seq<bool>) -> bool {
    exists|i: int| 0 <= i < flags.len() && flags[i]
}

pub fn has_set(flags: &Vec<bool>) -> (r: bool)
    ensures
        r == any_set(flags@),
{
    let mut i: usize = 0;
    while i < flags.len()
        invariant
            i <= flags@.len(),
            forall|j: int| 0 <= j < i ==> !flags@[j],
        decreases flags@.len() - i,
    {
        if flags[i] {
            assert(flags@[i as int]);
            return true;
        }
        i = i + 1;
    }
    false
}

/// Which elements of an array are masked out.
#[derive(Debug, PartialEq, Eq)]
pub struct ValidityMask {
    masked: Vec<bool>,
}

impl View for ValidityMask {
    type V = Seq<bool>;

    closed spec fn view(&self) -> Seq<bool> {
        self.masked@
    }
}

impl ValidityMask {
    pub fn from_masked_flags(flags: Vec<bool>) -> (r: Self)
        ensures
            r@ == flags@,
    {
        ValidityMask { masked: flags }
    }

    pub fn len(&self) -> (r: usize)
        ensures
            r == self@.len(),
    {
        self.masked.len()
    }

    pub fn is_empty(&self) -> (r: bool)
        ensures
            r == (self@.len() == 0),
    {
        self.masked.len() == 0
    }

    /// Whether the element at `index` is masked; nothing outside the array.
    pub fn is_masked(&self, index: usize) -> (r: Option<bool>)
        ensures
            r == if index < self@.len() {
                Some(self@[index as int])
            } else {
                None::<bool>
            },
    {
        if index < self.masked.len() {
            Some(self.masked[index])
        } else {
            None
        }
    }

    /// The number of masked elements.
    pub fn masked_count(&self) -> (r: usize)
        ensures
            r == count_set(self@),
    {
        let mut n: usize = 0;
        let mut i: usize = 0;
        while i < self.masked.len()
            invariant
                i <= self.masked@.len(),
                n <= i,
                n == count_set(self.masked@.take(i as int)),
            decreases self.masked@.len() - i,
        {
            assert(self.masked@.take(i + 1).drop_last() =~= self.masked@.take(i as int));
            if self.masked[i] {
                n = n + 1;
            }
            i = i + 1;
        }
        assert(self.masked@.take(self.masked@.len() as int) =~= self.masked@);
        n
    }

    pub fn copy(&self) -> (r: Self)
        ensures
            r@ == self@,
    {
        ValidityMask { masked: copy_values(&self.masked) }
    }
}

impl Clone for ValidityMask {
    fn clone(&self) -> (r: Self)
        ensures
            r@ == self@,
    {
        self.copy()
    }
}

/// The values of a mask, where there is one.
pub open spec fn mask_view(mask: Option<ValidityMask>) -> Option<Seq<bool>> {
    match mask {
        Some(m) => Some(m@),
        None => None,
    }
}

/// A coordinate as a mathematical value.
#[verifier::ext_equal]
pub struct CoordinateView {
    pub dims: Seq<Seq<char>>,
    pub values: Seq<F64>,
}

/// Numbers along some dimensions of an array.
#[derive(Clone, Debug, PartialEq)]
pub struct Coordinate {
    dims: Vec<String>,
    values: Vec<F64>,
}

impl View for Coordinate {
    type V = CoordinateView;

    closed spec fn view(&self) -> CoordinateView {
        CoordinateView { dims: texts(self.dims@), values: self.values@ }
    }
}

impl Coordinate {
    pub fn new(dims: Vec<String>, values: Vec<F64>) -> (r: Self)
        ensures
            r@ == (CoordinateView { dims: texts(dims@), values: values@ }),
    {
        Coordinate { dims, values }
    }

    /// A coordinate along one dimension.
    pub fn axis(dim: &str, values: Vec<F64>) -> (r: Self)
        ensures
            r@ == (CoordinateView { dims: seq![dim@], values: values@ }),
    {
        let mut dims: Vec<String> = Vec::new();
        dims.push(owned(dim));
        assert(texts(dims@) =~= seq![dim@]);
        Coordinate { dims, values }
    }

    /// A coordinate without dimensions.
    pub fn scalar(value: F64) -> (r: Self)
        ensures
            r@ == (CoordinateView { dims: Seq::empty(), values: seq![value] }),
    {
        let dims: Vec<String> = Vec::new();
        let mut values: Vec<F64> = Vec::new();
        values.push(value);
        assert(texts(dims@) =~= Seq::<Seq<char>>::empty());
        assert(values@ =~= seq![value]);
        Coordinate { dims, values }
    }

    pub fn dims(&self) -> (r: &Vec<String>)
        ensures
            texts(r@) == self@.dims,
    {
        &self.dims
    }

    pub fn values(&self) -> (r: &Vec<F64>)
        ensures
            r@ == self@.values,
    {
        &self.values
    }

    /// The numbers of a coordinate that is not needed any more.
    pub fn into_values(self) -> (r: Vec<F64>)
        ensures
            r@ == self@.values,
    {
        self.values
    }
}

impl Duplicate for Coordinate {
    fn duplicate(&self) -> (r: Self) {
        Coordinate { dims: copy_texts(&self.dims), values: copy_values(&self.values) }
    }
}

/// The shape of a coordinate: for each of its dimensions the size that the array
/// has there.
pub open spec fn coordinate_shape_of(
    coord_dims: Seq<Seq<char>>,
    dims: Seq<Seq<char>>,
    shape: Seq<usize>,
) -> Seq<usize> {
    Seq::new(coord_dims.len(), |k: int| shape[position_in(dims, coord_dims[k]) as int])
}

/// Whether every dimension of `part` is one of `dims`.
pub open spec fn dims_within(part: Seq<Seq<char>>, dims: Seq<Seq<char>>) -> bool {
    forall|k: int| 0 <= k < part.len() ==> dims.contains(#[trigger] part[k])
}

/// Whether a coordinate fits an array: its dimensions are dimensions of the array,
/// none of them twice, and it has a value for each position along them.
pub open spec fn fits(c: CoordinateView, dims: Seq<Seq<char>>, shape: Seq<usize>) -> bool {
    &&& c.dims.no_duplicates()
    &&& dims_within(c.dims, dims)
    &&& c.values.len() == size_of_shape(coordinate_shape_of(c.dims, dims, shape))
}

/// An array as a mathematical value.
#[verifier::ext_equal]
pub struct ArrayView<T> {
    pub shape: Seq<usize>,
    pub dims: Seq<Seq<char>>,
    pub values: Seq<T>,
    pub mask: Option<Seq<bool>>,
    pub coords: Map<Seq<char>, CoordinateView>,
}

/// What holds of every array: one name per dimension, all of them different, one
/// value per element, a mask of the same size, and coordinates that fit.
pub open spec fn array_ok<T>(a: ArrayView<T>) -> bool {
    &&& a.dims.len() == a.shape.len()
    &&& a.dims.no_duplicates()
    &&& a.values.len() == size_of_shape(a.shape)
    &&& a.values.len() <= usize::MAX
    &&& a.mask is Some ==> a.mask->Some_0.len() == a.values.len()
    &&& forall|k: Seq<char>| #[trigger] a.coords.dom().contains(k) ==> fits(a.coords[k], a.dims, a.shape)
}

/// An array in row-major order.
#[derive(Debug, PartialEq)]
pub struct DataArray<T: Copy> {
    shape: Vec<usize>,
    dims: Vec<String>,
    values: Vec<T>,
    mask: Option<ValidityMask>,
    coords: TextMap<Coordinate>,
}

/// An array of numbers of 64 bits.
pub type DataGrid = DataArray<F64>;

impl<T: Copy> View for DataArray<T> {
    type V = ArrayView<T>;

    closed spec fn view(&self) -> ArrayView<T> {
        ArrayView {
            shape: self.shape@,
            dims: texts(self.dims@),
            values: self.values@,
            mask: mask_view(self.mask),
            coords: self.coords@,
        }
    }
}

proof fn lemma_zero_size(shape: Seq<usize>)
    requires
        !no_zero(shape),
    ensures
        size_of_shape(shape) == 0,
    decreases shape.len(),
{
    if shape.len() > 0 {
        let rest = shape.drop_first();
        if shape[0] == 0 {
            assert(shape[0] as nat * size_of_shape(rest) == 0) by (nonlinear_arith)
                requires
                    shape[0] == 0,
            ;
        } else {
            let k = choose|k: int| 0 <= k < shape.len() && shape[k] == 0;
            assert(rest[k - 1] == 0);
            lemma_zero_size(rest);
            assert(shape[0] as nat * size_of_shape(rest) == 0) by (nonlinear_arith)
                requires
                    size_of_shape(rest) == 0,
            ;
        }
    }
}

/// Whether an array of the given shape has `len` elements.
pub fn shape_holds(shape: &Vec<usize>, len: usize) -> (r: bool)
    ensures
        r == (size_of_shape(shape@) == len),
{
    let mut i: usize = 0;
    while i < shape.len()
        invariant
            i <= shape@.len(),
            forall|j: int| 0 <= j < i ==> shape@[j] > 0,
        decreases shape@.len() - i,
    {
        if shape[i] == 0 {
            proof {
                lemma_zero_size(shape@);
            }
            return len == 0;
        }
        i = i + 1;
    }
    match checked_shape_size(shape.as_slice()) {
        Ok(size) => size == len,
        Err(_) => false,
    }
}

/// The error of a coordinate that does not fit.
pub open spec fn misfit_text(name: Seq<char>) -> Seq<char> {
    "coordinate '"@ + name + "' does not match the array dimensions"@
}

impl<T: Copy> DataArray<T> {
    #[verifier::type_invariant]
    pub open spec fn inv(&self) -> bool {
        array_ok(self@)
    }

    /// An array with the given dimension names, without mask and coordinates.
    pub fn from_vec_named(shape: Vec<usize>, dims: Vec<String>, values: Vec<T>) -> (r: Result<Self>)
        ensures
            dims@.len() != shape@.len() ==> is_invalid(
                r,
                "dimension names must match the number of dimensions"@,
            ),
            dims@.len() == shape@.len() && !texts(dims@).no_duplicates() ==> is_invalid(
                r,
                "dimension names must be different"@,
            ),
            dims@.len() == shape@.len() && texts(dims@).no_duplicates() && size_of_shape(shape@)
                != values@.len() ==> is_invalid(r, "value count must match the array shape"@),
            dims@.len() == shape@.len() && texts(dims@).no_duplicates() && size_of_shape(shape@)
                == values@.len() ==> r is Ok,
            r is Ok ==> r->Ok_0@ == (ArrayView {
                shape: shape@,
                dims: texts(dims@),
                values: values@,
                mask: None,
                coords: Map::empty(),
            }),
    {
        if dims.len() != shape.len() {
            return Err(
                RustySatError::invalid_input("dimension names must match the number of dimensions"),
            );
        }
        if !all_different(&dims) {
            return Err(RustySatError::invalid_input("dimension names must be different"));
        }
        if !shape_holds(&shape, values.len()) {
            return Err(RustySatError::invalid_input("value count must match the array shape"));
        }
        Ok(DataArray { shape, dims, values, mask: None, coords: TextMap::new() })
    }

    /// A two-dimensional array with the dimensions `y` and `x`.
    pub fn new(height: usize, width: usize, values: Vec<T>) -> (r: Result<Self>)
        ensures
            height * width != values@.len() ==> is_invalid(
                r,
                "value count must match the array shape"@,
            ),
            height * width == values@.len() ==> r is Ok,
            r is Ok ==> r->Ok_0@ == (ArrayView {
                shape: seq![height, width],
                dims: seq!["y"@, "x"@],
                values: values@,
                mask: None,
                coords: Map::empty(),
            }),
    {
        let mut shape: Vec<usize> = Vec::new();
        shape.push(height);
        shape.push(width);
        let mut dims: Vec<String> = Vec::new();
        dims.push(owned("y"));
        dims.push(owned("x"));
        proof {
            assert(texts(dims@) =~= seq!["y"@, "x"@]);
            lemma_y_is_not_x();
            assert(shape@ =~= seq![height, width]);
            lemma_plane_size(height, width);
        }
        DataArray::from_vec_named(shape, dims, values)
    }

    pub fn shape_nd(&self) -> (r: &Vec<usize>)
        ensures
            r@ == self@.shape,
    {
        &self.shape
    }

    pub fn dims(&self) -> (r: &Vec<String>)
        ensures
            texts(r@) == self@.dims,
    {
        &self.dims
    }

    pub fn values(&self) -> (r: &Vec<T>)
        ensures
            r@ == self@.values,
    {
        &self.values
    }

    pub fn mask(&self) -> (r: Option<&ValidityMask>)
        ensures
            r is Some == self@.mask is Some,
            r is Some ==> r->Some_0@ == self@.mask->Some_0,
    {
        match &self.mask {
            Some(m) => Some(m),
            None => None,
        }
    }

    pub fn coords(&self) -> (r: &TextMap<Coordinate>)
        ensures
            r@ == self@.coords,
    {
        &self.coords
    }

    pub fn coord(&self, name: &str) -> (r: Option<&Coordinate>)
        ensures
            r is Some == self@.coords.dom().contains(name@),
            r is Some ==> r->Some_0@ == self@.coords[name@],
    {
        self.coords.get(name)
    }

    /// The number of elements.
    pub fn len(&self) -> (r: usize)
        ensures
            r == self@.values.len(),
    {
        self.values.len()
    }

    pub fn is_empty(&self) -> (r: bool)
        ensures
            r == (self@.values.len() == 0),
    {
        self.values.len() == 0
    }

    /// The axis with the given name.
    pub fn dim_index(&self, name: &str) -> (r: Option<usize>)
        ensures
            r is Some <==> self@.dims.contains(name@),
            r is Some ==> r->Some_0 < self@.dims.len() && r->Some_0 == position_in(
                self@.dims,
                name@,
            ),
    {
        position_of(&self.dims, name)
    }

    /// Whether the element at `index` is masked; nothing outside the array.
    pub fn is_masked(&self, index: usize) -> (r: Option<bool>)
        ensures
            r == if index >= self@.values.len() {
                None::<bool>
            } else {
                Some(masked_in(self@.mask, index as int))
            },
    {
        proof {
            use_type_invariant(self);
        }
        if index >= self.values.len() {
            return None;
        }
        match &self.mask {
            Some(m) => m.is_masked(index),
            None => Some(false),
        }
    }

    /// The sizes along the dimensions `y` and `x`.
    pub fn shape_yx(&self) -> (r: Result<(usize, usize)>)
        ensures
            !self@.dims.contains("y"@) ==> is_invalid(r, "array is missing 'y' dimension"@),
            self@.dims.contains("y"@) && !self@.dims.contains("x"@) ==> is_invalid(
                r,
                "array is missing 'x' dimension"@,
            ),
            self@.dims.contains("y"@) && self@.dims.contains("x"@) ==> r is Ok,
            r is Ok ==> r->Ok_0 == (size_along(self@, "y"@), size_along(self@, "x"@)),
    {
        proof {
            use_type_invariant(self);
        }
        let y = match self.dim_index("y") {
            Some(axis) => axis,
            None => {
                return Err(RustySatError::invalid_input("array is missing 'y' dimension"));
            },
        };
        let x = match self.dim_index("x") {
            Some(axis) => axis,
            None => {
                return Err(RustySatError::invalid_input("array is missing 'x' dimension"));
            },
        };
        Ok((self.shape[y], self.shape[x]))
    }

    /// Gives the array a mask.
    pub fn set_mask(&mut self, mask: ValidityMask) -> (r: Result<()>)
        ensures
            mask@.len() != old(self)@.values.len() ==> is_invalid(
                r,
                "mask length must match the number of values"@,
            ) && *final(self) == *old(self),
            mask@.len() == old(self)@.values.len() ==> r is Ok && final(self)@ == (ArrayView {
                mask: Some(mask@),
                ..old(self)@
            }),
    {
        if mask.len() != self.values.len() {
            return Err(RustySatError::invalid_input("mask length must match the number of values"));
        }
        proof {
            use_type_invariant(&*self);
        }
        self.mask = Some(mask);
        Ok(())
    }

    /// The array with a mask.
    pub fn with_mask(self, mask: ValidityMask) -> (r: Result<Self>)
        ensures
            mask@.len() != self@.values.len() ==> is_invalid(
                r,
                "mask length must match the number of values"@,
            ),
            mask@.len() == self@.values.len() ==> r is Ok,
            r is Ok ==> r->Ok_0@ == (ArrayView { mask: Some(mask@), ..self@ }),
    {
        let mut array = self;
        match array.set_mask(mask) {
            Ok(()) => Ok(array),
            Err(e) => Err(e),
        }
    }

    /// Gives the array a coordinate, in place of one with the same name.
    pub fn set_coordinate(&mut self, name: &str, coordinate: Coordinate) -> (r: Result<()>)
        ensures
            !fits(coordinate@, old(self)@.dims, old(self)@.shape) ==> is_invalid(
                r,
                misfit_text(name@),
            ) && *final(self) == *old(self),
            fits(coordinate@, old(self)@.dims, old(self)@.shape) ==> r is Ok && final(self)@ == (
            ArrayView { coords: old(self)@.coords.insert(name@, coordinate@), ..old(self)@ }),
    {
        proof {
            use_type_invariant(&*self);
        }
        if !coordinate_fits(&coordinate, &self.dims, &self.shape) {
            let text = join3("coordinate '", name, "' does not match the array dimensions");
            return Err(RustySatError::invalid_input(text.as_str()));
        }
        let mut coords = self.coords.copy();
        coords.insert(owned(name), coordinate);
        self.coords = coords;
        Ok(())
    }

    /// The array with a coordinate.
    pub fn with_coordinate(self, name: &str, coordinate: Coordinate) -> (r: Result<Self>)
        ensures
            !fits(coordinate@, self@.dims, self@.shape) ==> is_invalid(r, misfit_text(name@)),
            fits(coordinate@, self@.dims, self@.shape) ==> r is Ok,
            r is Ok ==> r->Ok_0@ == (ArrayView {
                coords: self@.coords.insert(name@, coordinate@),
                ..self@
            }),
    {
        let mut array = self;
        match array.set_coordinate(name, coordinate) {
            Ok(()) => Ok(array),
            Err(e) => Err(e),
        }
    }

    /// The values, the coordinates and the mask.
    pub fn into_parts(self) -> (r: (Vec<T>, TextMap<Coordinate>, Option<ValidityMask>))
        ensures
            r.0@ == self@.values,
            r.1@ == self@.coords,
            mask_view(r.2) == self@.mask,
    {
        (self.values, self.coords, self.mask)
    }

    /// An array with the shape, dimensions, mask and coordinates of this one and other
    /// values.
    pub fn with_other_values<U: Copy>(source: &DataArray<U>, values: Vec<T>) -> (r: Self)
        requires
            values@.len() == source@.values.len(),
        ensures
            r@ == (ArrayView {
                shape: source@.shape,
                dims: source@.dims,
                values: values@,
                mask: source@.mask,
                coords: source@.coords,
            }),
    {
        proof {
            use_type_invariant(source);
        }
        let mask = match &source.mask {
            Some(m) => Some(m.copy()),
            None => None,
        };
        let shape = copy_values(&source.shape);
        let dims = copy_texts(&source.dims);
        let coords = source.coords.copy();
        DataArray { shape, dims, values, mask, coords }
    }

    /// A copy of the array.
    pub fn copy(&self) -> (r: Self)
        ensures
            r@ == self@,
    {
        proof {
            use_type_invariant(self);
        }
        let mask = match &self.mask {
            Some(m) => Some(m.copy()),
            None => None,
        };
        let shape = copy_values(&self.shape);
        let dims = copy_texts(&self.dims);
        let values = copy_values(&self.values);
        let coords = self.coords.copy();
        DataArray { shape, dims, values, mask, coords }
    }
}

impl<T: Copy> Clone for DataArray<T> {
    fn clone(&self) -> (r: Self)
        ensures
            r@ == self@,
    {
        self.copy()
    }
}

/// Whether a mask, if there is one, covers the element at `index`.
pub open spec fn masked_in(mask: Option<Seq<bool>>, index: int) -> bool {
    match mask {
        Some(flags) => 0 <= index < flags.len() && flags[index],
        None => false,
    }
}

/// The size along the dimension `name`.
pub open spec fn size_along<T>(a: ArrayView<T>, name: Seq<char>) -> usize {
    a.shape[position_in(a.dims, name) as int]
}

/// The two plane dimensions have different names.
pub proof fn lemma_y_is_not_x()
    ensures
        "y"@ != "x"@,
{
    reveal_strlit("y");
    reveal_strlit("x");
    assert("y"@[0] != "x"@[0]);
}

/// Whether no text occurs twice in a list.
pub fn all_different(list: &Vec<String>) -> (r: bool)
    ensures
        r == texts(list@).no_duplicates(),
{
    let ghost t = texts(list@);
    let mut i: usize = 0;
    while i < list.len()
        invariant
            i <= list@.len(),
            t == texts(list@),
            forall|a: int, b: int| 0 <= a < i && 0 <= b < t.len() && a != b ==> t[a] != t[b],
        decreases list@.len() - i,
    {
        let mut j: usize = i + 1;
        while j < list.len()
            invariant
                i < j <= list@.len(),
                t == texts(list@),
                forall|b: int| i < b < j ==> t[i as int] != t[b],
            decreases list@.len() - j,
        {
            if same_text(list[i].as_str(), list[j].as_str()) {
                assert(t[i as int] == t[j as int]);
                return false;
            }
            j = j + 1;
        }
        i = i + 1;
    }
    true
}

/// The size of a plane.
pub proof fn lemma_plane_size(height: usize, width: usize)
    ensures
        size_of_shape(seq![height, width]) == height * width,
{
    reveal_with_fuel(size_of_shape, 3);
    let s = seq![height, width];
    assert(s.drop_first() =~= seq![width]);
    assert(s.drop_first().drop_first().len() == 0);
    assert(size_of_shape(s) == height as nat * (width as nat * 1));
}

/// Whether a coordinate fits an array with the given dimensions.
pub fn coordinate_fits(c: &Coordinate, dims: &Vec<String>, shape: &Vec<usize>) -> (r: bool)
    requires
        dims@.len() == shape@.len(),
    ensures
        r == fits(c@, texts(dims@), shape@),
{
    let mut sizes: Vec<usize> = Vec::new();
    let mut i: usize = 0;
    let ghost cd = c@.dims;
    let ghost names = texts(dims@);
    let part = c.dims();
    if !all_different(part) {
        return false;
    }
    while i < part.len()
        invariant
            i <= part@.len(),
            texts(part@) == cd,
            cd == c@.dims,
            names == texts(dims@),
            dims@.len() == shape@.len(),
            sizes@.len() == i,
            forall|k: int| 0 <= k < i ==> names.contains(#[trigger] cd[k]),
            forall|k: int| 0 <= k < i ==> sizes@[k] == shape@[position_in(names, cd[k]) as int],
        decreases part@.len() - i,
    {
        assert(cd[i as int] == part@[i as int]@);
        match position_of(dims, part[i].as_str()) {
            Some(axis) => {
                sizes.push(shape[axis]);
            },
            None => {
                return false;
            },
        }
        i = i + 1;
    }
    assert(sizes@ =~= coordinate_shape_of(cd, names, shape@));
    shape_holds(&sizes, c.values().len())
}

/// The element type of an array.
#[derive(Clone, Copy, Debug, PartialEq, Eq, Structural)]
pub enum DataType {
    F32,
    F64,
    U8,
    U16,
    I16,
}

/// An array of any of the element types.
#[derive(Debug, PartialEq)]
pub enum AnyDataArray {
    F32(DataArray<F32>),
    F64(DataArray<F64>),
    U8(DataArray<u8>),
    U16(DataArray<u16>),
    I16(DataArray<i16>),
}

/// An array of any of the element types as a mathematical value.
pub enum AnyArrayView {
    F32(ArrayView<F32>),
    F64(ArrayView<F64>),
    U8(ArrayView<u8>),
    U16(ArrayView<u16>),
    I16(ArrayView<i16>),
}

impl AnyArrayView {
    pub open spec fn shape(self) -> Seq<usize> {
        match self {
            AnyArrayView::F32(a) => a.shape,
            AnyArrayView::F64(a) => a.shape,
            AnyArrayView::U8(a) => a.shape,
            AnyArrayView::U16(a) => a.shape,
            AnyArrayView::I16(a) => a.shape,
        }
    }

    pub open spec fn dims(self) -> Seq<Seq<char>> {
        match self {
            AnyArrayView::F32(a) => a.dims,
            AnyArrayView::F64(a) => a.dims,
            AnyArrayView::U8(a) => a.dims,
            AnyArrayView::U16(a) => a.dims,
            AnyArrayView::I16(a) => a.dims,
        }
    }

    pub open spec fn mask(self) -> Option<Seq<bool>> {
        match self {
            AnyArrayView::F32(a) => a.mask,
            AnyArrayView::F64(a) => a.mask,
            AnyArrayView::U8(a) => a.mask,
            AnyArrayView::U16(a) => a.mask,
            AnyArrayView::I16(a) => a.mask,
        }
    }

    pub open spec fn coords(self) -> Map<Seq<char>, CoordinateView> {
        match self {
            AnyArrayView::F32(a) => a.coords,
            AnyArrayView::F64(a) => a.coords,
            AnyArrayView::U8(a) => a.coords,
            AnyArrayView::U16(a) => a.coords,
            AnyArrayView::I16(a) => a.coords,
        }
    }

    pub open spec fn dtype(self) -> DataType {
        match self {
            AnyArrayView::F32(_) => DataType::F32,
            AnyArrayView::F64(_) => DataType::F64,
            AnyArrayView::U8(_) => DataType::U8,
            AnyArrayView::U16(_) => DataType::U16,
            AnyArrayView::I16(_) => DataType::I16,
        }
    }
}

impl View for AnyDataArray {
    type V = AnyArrayView;

    open spec fn view(&self) -> AnyArrayView {
        match self {
            AnyDataArray::F32(a) => AnyArrayView::F32(a@),
            AnyDataArray::F64(a) => AnyArrayView::F64(a@),
            AnyDataArray::U8(a) => AnyArrayView::U8(a@),
            AnyDataArray::U16(a) => AnyArrayView::U16(a@),
            AnyDataArray::I16(a) => AnyArrayView::I16(a@),
        }
    }
}

/// Whether a list holds the values of an array as numbers of 64 bits: each has the value of
/// the element at its place.
pub open spec fn are_numbers(v: AnyArrayView, numbers: Seq<F64>) -> bool {
    match v {
        AnyArrayView::F32(a) => {
            &&& numbers.len() == a.values.len()
            &&& forall|i: int|
                0 <= i < numbers.len() ==> is_widened(#[trigger] numbers[i], a.values[i])
        },
        AnyArrayView::F64(a) => numbers == a.values,
        AnyArrayView::U8(a) => {
            &&& numbers.len() == a.values.len()
            &&& forall|i: int|
                0 <= i < numbers.len() ==> is_integer(#[trigger] numbers[i], a.values[i] as int)
        },
        AnyArrayView::U16(a) => {
            &&& numbers.len() == a.values.len()
            &&& forall|i: int|
                0 <= i < numbers.len() ==> is_integer(#[trigger] numbers[i], a.values[i] as int)
        },
        AnyArrayView::I16(a) => {
            &&& numbers.len() == a.values.len()
            &&& forall|i: int|
                0 <= i < numbers.len() ==> is_integer(#[trigger] numbers[i], a.values[i] as int)
        },
    }
}

/// What each value of a list is converted to.
fn converted<T: Copy, C: Fn(T) -> F64>(list: &Vec<T>, convert: &C) -> (r: Vec<F64>)
    requires
        forall|v: T| #[trigger] convert.requires((v,)),
    ensures
        r@.len() == list@.len(),
        forall|i: int| 0 <= i < r@.len() ==> convert.ensures((list@[i],), #[trigger] r@[i]),
{
    let mut out: Vec<F64> = Vec::new();
    let mut i: usize = 0;
    while i < list.len()
        invariant
            i <= list@.len(),
            out@.len() == i,
            forall|v: T| #[trigger] convert.requires((v,)),
            forall|j: int| 0 <= j < i ==> convert.ensures((list@[j],), #[trigger] out@[j]),
        decreases list@.len() - i,
    {
        out.push(convert(list[i]));
        i = i + 1;
    }
    out
}

impl AnyDataArray {
    /// The values as numbers of 64 bits.
    pub fn numbers(&self) -> (r: Vec<F64>)
        ensures
            are_numbers(self@, r@),
            r@.len() == size_of_shape(self@.shape()),
    {
        match self {
            AnyDataArray::F32(a) => {
                proof {
                    use_type_invariant(a);
                }
                converted(a.values(), &|v: F32| -> (n: F64)
                    ensures
                        is_widened(n, v),
                    { F64::from_narrow(v) })
            },
            AnyDataArray::F64(a) => {
                proof {
                    use_type_invariant(a);
                }
                copy_values(a.values())
            },
            AnyDataArray::U8(a) => {
                proof {
                    use_type_invariant(a);
                }
                converted(a.values(), &|v: u8| -> (n: F64)
                    ensures
                        is_integer(n, v as int),
                    { F64::from_u8(v) })
            },
            AnyDataArray::U16(a) => {
                proof {
                    use_type_invariant(a);
                }
                converted(a.values(), &|v: u16| -> (n: F64)
                    ensures
                        is_integer(n, v as int),
                    { F64::from_u16(v) })
            },
            AnyDataArray::I16(a) => {
                proof {
                    use_type_invariant(a);
                }
                converted(a.values(), &|v: i16| -> (n: F64)
                    ensures
                        is_integer(n, v as int),
                    { F64::from_i16(v) })
            },
        }
    }

    pub fn dtype(&self) -> (r: DataType)
        ensures
            r == self@.dtype(),
    {
        match self {
            AnyDataArray::F32(_) => DataType::F32,
            AnyDataArray::F64(_) => DataType::F64,
            AnyDataArray::U8(_) => DataType::U8,
            AnyDataArray::U16(_) => DataType::U16,
            AnyDataArray::I16(_) => DataType::I16,
        }
    }

    pub fn shape(&self) -> (r: &Vec<usize>)
        ensures
            r@ == self@.shape(),
    {
        match self {
            AnyDataArray::F32(a) => a.shape_nd(),
            AnyDataArray::F64(a) => a.shape_nd(),
            AnyDataArray::U8(a) => a.shape_nd(),
            AnyDataArray::U16(a) => a.shape_nd(),
            AnyDataArray::I16(a) => a.shape_nd(),
        }
    }

    pub fn dims(&self) -> (r: &Vec<String>)
        ensures
            texts(r@) == self@.dims(),
    {
        match self {
            AnyDataArray::F32(a) => a.dims(),
            AnyDataArray::F64(a) => a.dims(),
            AnyDataArray::U8(a) => a.dims(),
            AnyDataArray::U16(a) => a.dims(),
            AnyDataArray::I16(a) => a.dims(),
        }
    }

    pub fn mask(&self) -> (r: Option<&ValidityMask>)
        ensures
            r is Some == self@.mask() is Some,
            r is Some ==> r->Some_0@ == self@.mask()->Some_0,
    {
        match self {
            AnyDataArray::F32(a) => a.mask(),
            AnyDataArray::F64(a) => a.mask(),
            AnyDataArray::U8(a) => a.mask(),
            AnyDataArray::U16(a) => a.mask(),
            AnyDataArray::I16(a) => a.mask(),
        }
    }

    pub fn coord(&self, name: &str) -> (r: Option<&Coordinate>)
        ensures
            r is Some == self@.coords().dom().contains(name@),
            r is Some ==> r->Some_0@ == self@.coords()[name@],
    {
        match self {
            AnyDataArray::F32(a) => a.coord(name),
            AnyDataArray::F64(a) => a.coord(name),
            AnyDataArray::U8(a) => a.coord(name),
            AnyDataArray::U16(a) => a.coord(name),
            AnyDataArray::I16(a) => a.coord(name),
        }
    }

    /// The sizes along the dimensions `y` and `x`.
    pub fn shape_yx(&self) -> (r: Result<(usize, usize)>)
        ensures
            !self@.dims().contains("y"@) ==> is_invalid(r, "array is missing 'y' dimension"@),
            self@.dims().contains("y"@) && !self@.dims().contains("x"@) ==> is_invalid(
                r,
                "array is missing 'x' dimension"@,
            ),
            self@.dims().contains("y"@) && self@.dims().contains("x"@) ==> r is Ok,
            r is Ok ==> r->Ok_0 == (
                self@.shape()[position_in(self@.dims(), "y"@) as int],
                self@.shape()[position_in(self@.dims(), "x"@) as int],
            ),
    {
        match self {
            AnyDataArray::F32(a) => a.shape_yx(),
            AnyDataArray::F64(a) => a.shape_yx(),
            AnyDataArray::U8(a) => a.shape_yx(),
            AnyDataArray::U16(a) => a.shape_yx(),
            AnyDataArray::I16(a) => a.shape_yx(),
        }
    }

    /// The array of numbers of 64 bits, where it is one.
    pub fn as_f64(&self) -> (r: Option<&DataGrid>)
        ensures
            r is Some == self@ is F64,
            r is Some ==> r->Some_0@ == self@->F64_0,
    {
        match self {
            AnyDataArray::F64(a) => Some(a),
            _ => None,
        }
    }

    /// The array of numbers of 64 bits, where it is one.
    pub fn into_f64(self) -> (r: Option<DataGrid>)
        ensures
            r is Some == self@ is F64,
            r is Some ==> r->Some_0@ == self@->F64_0,
    {
        match self {
            AnyDataArray::F64(a) => Some(a),
            _ => None,
        }
    }

    pub fn copy(&self) -> (r: Self)
        ensures
            r@ == self@,
    {
        match self {
            AnyDataArray::F32(a) => AnyDataArray::F32(a.copy()),
            AnyDataArray::F64(a) => AnyDataArray::F64(a.copy()),
            AnyDataArray::U8(a) => AnyDataArray::U8(a.copy()),
            AnyDataArray::U16(a) => AnyDataArray::U16(a.copy()),
            AnyDataArray::I16(a) => AnyDataArray::I16(a.copy()),
        }
    }
}

impl Clone for AnyDataArray {
    fn clone(&self) -> (r: Self)
        ensures
            r@ == self@,
    {
        self.copy()
    }
}

/// Whether a pixel has a value that counts.
pub open spec fn counts(values: Seq<F64>, mask: Option<Seq<bool>>, i: int) -> bool {
    !masked_in(mask, i) && 0 <= i < values.len() && values[i].finite()
}

/// The value of a pixel, where it counts.
pub fn valid_value(source: &DataGrid, index: usize) -> (r: Option<F64>)
    ensures
        r is Some == counts(source@.values, source@.mask, index as int),
        r is Some ==> r->Some_0 == source@.values[index as int],
{
    proof {
        use_type_invariant(source);
    }
    if index >= source.len() {
        return None;
    }
    match source.is_masked(index) {
        Some(true) => {
            return None;
        },
        _ => {},
    }
    let value = source.values()[index];
    if value.is_finite() {
        Some(value)
    } else {
        None
    }
}

/// A plane has as many values as pixels.
pub proof fn lemma_plane_len<T>(a: ArrayView<T>)
    requires
        array_ok(a),
        a.dims.len() == 2,
    ensures
        a.shape.len() == 2,
        a.values.len() == a.shape[0] * a.shape[1],
{
    assert(a.shape =~= seq![a.shape[0], a.shape[1]]);
    lemma_plane_size(a.shape[0], a.shape[1]);
}

/// Whether a pixel shows a value: it is not masked and its value is finite.
pub open spec fn has_value(a: ArrayView<F64>, i: int) -> bool {
    a.values[i].finite() && !(a.mask is Some && a.mask->Some_0[i])
}

/// Whether an array of any element type holds together.
pub open spec fn any_array_ok(v: AnyArrayView) -> bool {
    match v {
        AnyArrayView::F32(a) => array_ok(a),
        AnyArrayView::F64(a) => array_ok(a),
        AnyArrayView::U8(a) => array_ok(a),
        AnyArrayView::U16(a) => array_ok(a),
        AnyArrayView::I16(a) => array_ok(a),
    }
}

} // verus!
