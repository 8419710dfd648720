//! Shapes, strides and offsets of row-major arrays.

use crate::error::{is_invalid, Result, RustySatError};
use vstd::arithmetic::div_mod::{
    lemma_fundamental_div_mod_converse, lemma_mod_breakdown, lemma_mod_multiples_vanish,
};
use vstd::prelude::*;

verus! {

/// The number of elements of an array with the given shape.
pub open spec fn size_of_shape(shape: Seq<usize>) -> nat
    decreases shape.len(),
{
    if shape.len() == 0 {
        1
    } else {
        shape[0] as nat * size_of_shape(shape.drop_first())
    }
}

/// The distance between two neighbours along `axis`.
pub open spec fn stride(shape: Seq<usize>, axis: int) -> nat {
    size_of_shape(shape.skip(axis + 1))
}

/// Whether no dimension is zero.
pub open spec fn no_zero(shape: Seq<usize>) -> bool {
    forall|k: int| 0 <= k < shape.len() ==> shape[k] > 0
}

/// The position of the first zero dimension, or the number of dimensions.
pub open spec fn first_zero(shape: Seq<usize>) -> nat
    decreases shape.len(),
{
    if shape.len() == 0 || shape[0] == 0 {
        0
    } else {
        1 + first_zero(shape.drop_first())
    }
}

/// The index along an axis with the given stride and size of the element at `offset`.
pub open spec fn axis_index(offset: nat, stride: nat, dim: nat) -> nat {
    ((offset as int / stride as int) % dim as int) as nat
}

/// The indices along each axis of the element at `offset`.
pub open spec fn unravel(shape: Seq<usize>, offset: nat) -> Seq<nat> {
    Seq::new(shape.len(), |k: int| axis_index(offset, stride(shape, k), shape[k] as nat))
}

/// The offset of the element with the given indices.
pub open spec fn ravel(shape: Seq<usize>, indices: Seq<nat>) -> nat
    decreases shape.len(),
{
    if shape.len() == 0 {
        0
    } else {
        indices[0] * size_of_shape(shape.drop_first()) + ravel(
            shape.drop_first(),
            indices.drop_first(),
        )
    }
}

/// Whether every index lies inside its dimension.
pub open spec fn in_bounds(shape: Seq<usize>, indices: Seq<nat>) -> bool {
    &&& indices.len() == shape.len()
    &&& forall|k: int| 0 <= k < shape.len() ==> indices[k] < shape[k]
}

pub proof fn lemma_size_positive(shape: Seq<usize>)
    requires
        no_zero(shape),
    ensures
        size_of_shape(shape) > 0,
    decreases shape.len(),
{
    if shape.len() > 0 {
        lemma_size_positive(shape.drop_first());
        assert(shape[0] as nat * size_of_shape(shape.drop_first()) > 0) by (nonlinear_arith)
            requires
                shape[0] as nat > 0,
                size_of_shape(shape.drop_first()) > 0,
        ;
    }
}

/// The size of a shape is the size of its first part times the size of the rest.
pub proof fn lemma_size_split(shape: Seq<usize>, at: int)
    requires
        0 <= at <= shape.len(),
    ensures
        size_of_shape(shape) == size_of_shape(shape.take(at)) * size_of_shape(shape.skip(at)),
    decreases at,
{
    if at == 0 {
        assert(shape.skip(0) =~= shape);
        assert(size_of_shape(shape.take(0)) == 1);
        assert(1 * size_of_shape(shape) == size_of_shape(shape));
    } else {
        let rest = shape.drop_first();
        lemma_size_split(rest, at - 1);
        assert(shape.take(at).drop_first() =~= rest.take(at - 1));
        assert(shape.skip(at) =~= rest.skip(at - 1));
        assert(shape[0] as nat * (size_of_shape(rest.take(at - 1)) * size_of_shape(
            rest.skip(at - 1),
        )) == (shape[0] as nat * size_of_shape(rest.take(at - 1))) * size_of_shape(
            rest.skip(at - 1),
        )) by (nonlinear_arith);
    }
}

/// A part of a shape without zero dimensions is no larger than the whole.
pub proof fn lemma_part_bounded(shape: Seq<usize>, at: int)
    requires
        no_zero(shape),
        0 <= at <= shape.len(),
    ensures
        0 < size_of_shape(shape.skip(at)) <= size_of_shape(shape),
        0 < size_of_shape(shape.take(at)) <= size_of_shape(shape),
{
    lemma_size_split(shape, at);
    lemma_size_positive(shape.take(at));
    lemma_size_positive(shape.skip(at));
    let a = size_of_shape(shape.take(at));
    let b = size_of_shape(shape.skip(at));
    assert(b <= a * b && a <= a * b) by (nonlinear_arith)
        requires
            a > 0,
            b > 0,
    ;
}

/// The size of a shape with one more dimension.
pub proof fn lemma_size_push(shape: Seq<usize>, d: usize)
    ensures
        size_of_shape(shape.push(d)) == size_of_shape(shape) * d,
{
    let s = shape.push(d);
    lemma_size_split(s, shape.len() as int);
    assert(s.take(shape.len() as int) =~= shape);
    assert(s.skip(shape.len() as int) =~= seq![d]);
    assert(size_of_shape(seq![d]) == d) by {
        let one = seq![d];
        assert(one.len() == 1 && one[0] == d);
        assert(one.drop_first().len() == 0);
        assert(size_of_shape(one.drop_first()) == 1);
        assert(size_of_shape(one) == one[0] as nat * size_of_shape(one.drop_first()));
        assert(d as nat * 1 == d) by (nonlinear_arith);
    }
}

/// The plane of two axes is no larger than the whole.
pub proof fn lemma_two_axes(shape: Seq<usize>, a: int, b: int)
    requires
        no_zero(shape),
        0 <= a < shape.len(),
        0 <= b < shape.len(),
        a != b,
    ensures
        shape[a] * shape[b] <= size_of_shape(shape),
    decreases a,
{
    if b < a {
        lemma_two_axes(shape, b, a);
        assert(shape[a] * shape[b] == shape[b] * shape[a]) by (nonlinear_arith);
    } else {
        let rest = shape.skip(a + 1);
        lemma_part_bounded(shape, a);
        assert(shape.skip(a).drop_first() =~= rest);
        lemma_part_bounded(rest, b - a - 1);
        let tail = rest.skip(b - a - 1);
        assert(tail[0] == shape[b]);
        lemma_size_positive(tail.drop_first());
        let da = shape[a] as nat;
        let db = shape[b] as nat;
        let t = size_of_shape(tail.drop_first());
        let r = size_of_shape(rest);
        assert(da * db <= da * r) by (nonlinear_arith)
            requires
                t > 0,
                db * t <= r,
        ;
    }
}

/// The offset of indices in bounds lies inside the array.
pub proof fn lemma_ravel_bounded(shape: Seq<usize>, indices: Seq<nat>)
    requires
        in_bounds(shape, indices),
    ensures
        ravel(shape, indices) < size_of_shape(shape),
    decreases shape.len(),
{
    if shape.len() > 0 {
        let rest = shape.drop_first();
        lemma_ravel_bounded(rest, indices.drop_first());
        let i = indices[0];
        let d = shape[0] as nat;
        let s = size_of_shape(rest);
        let r = ravel(rest, indices.drop_first());
        assert(i * s + r < d * s) by (nonlinear_arith)
            requires
                i < d,
                r < s,
        ;
    }
}

/// The indices of an offset lead back to it: offsets and indices are two names
/// of the same element.
pub proof fn lemma_ravel_unravel(shape: Seq<usize>, offset: nat)
    requires
        no_zero(shape),
    ensures
        in_bounds(shape, unravel(shape, offset)),
        ravel(shape, unravel(shape, offset)) == offset % size_of_shape(shape),
        offset < size_of_shape(shape) ==> ravel(shape, unravel(shape, offset)) == offset,
    decreases shape.len(),
{
    lemma_size_positive(shape);
    assert forall|k: int| 0 <= k < shape.len() implies unravel(shape, offset)[k] < shape[k] by {
        let q = offset as int / stride(shape, k) as int;
        assert(0 <= q % shape[k] as int && q % (shape[k] as int) < shape[k] as int)
            by (nonlinear_arith)
            requires
                shape[k] as nat > 0,
        ;
    }
    if shape.len() == 0 {
        assert(offset % 1 == 0);
    } else {
        let rest = shape.drop_first();
        lemma_ravel_unravel(rest, offset);
        lemma_size_positive(rest);
        assert forall|k: int| 0 <= k < rest.len() implies unravel(shape, offset).drop_first()[k]
            == unravel(rest, offset)[k] by {
            assert(shape.skip(k + 2) =~= rest.skip(k + 1));
        }
        assert(unravel(shape, offset).drop_first() =~= unravel(rest, offset));
        assert(shape.skip(1) =~= rest);
        let s = size_of_shape(rest);
        let d = shape[0] as nat;
        lemma_mod_breakdown(offset as int, s as int, d as int);
        assert(s * d == d * s && s * ((offset / s) % d) == ((offset / s) % d) * s)
            by (nonlinear_arith);
    }
    if offset < size_of_shape(shape) {
        assert(offset % size_of_shape(shape) == offset) by (nonlinear_arith)
            requires
                offset < size_of_shape(shape),
        ;
    }
}

proof fn lemma_unravel_shifted(shape: Seq<usize>, indices: Seq<nat>, m: nat)
    requires
        in_bounds(shape, indices),
    ensures
        unravel(shape, ravel(shape, indices) + m * size_of_shape(shape)) == indices,
    decreases shape.len(),
{
    if shape.len() > 0 {
        let rest = shape.drop_first();
        let tail = indices.drop_first();
        let s = size_of_shape(rest);
        let d = shape[0] as nat;
        let r = ravel(rest, tail);
        lemma_ravel_bounded(rest, tail);
        let o = ravel(shape, indices) + m * size_of_shape(shape);
        let q = indices[0] + m * d;
        assert(o == q * s + r) by (nonlinear_arith)
            requires
                o == indices[0] * s + r + m * (d * s),
                q == indices[0] + m * d,
        ;
        lemma_fundamental_div_mod_converse(o as int, s as int, q as int, r as int);
        assert(q % d == indices[0]) by {
            lemma_mod_multiples_vanish(m as int, indices[0] as int, d as int);
            assert(d * m + indices[0] == q) by (nonlinear_arith)
                requires
                    q == indices[0] + m * d,
            ;
            assert(indices[0] % d == indices[0]) by (nonlinear_arith)
                requires
                    indices[0] < d,
            ;
        }
        lemma_unravel_shifted(rest, tail, q);
        assert(r + q * s == o);
        assert(shape.skip(1) =~= rest);
        assert forall|k: int| 0 <= k < shape.len() implies unravel(shape, o)[k] == indices[k] by {
            if k > 0 {
                assert(shape.skip(k + 1) =~= rest.skip(k));
                assert(unravel(rest, q * s + r)[k - 1] == tail[k - 1]);
            }
        }
    }
    assert(unravel(shape, ravel(shape, indices) + m * size_of_shape(shape)) =~= indices);
}

/// The offset of indices in bounds leads back to those indices.
pub proof fn lemma_unravel_ravel(shape: Seq<usize>, indices: Seq<nat>)
    requires
        in_bounds(shape, indices),
    ensures
        unravel(shape, ravel(shape, indices)) == indices,
{
    lemma_unravel_shifted(shape, indices, 0);
    assert(0 * size_of_shape(shape) == 0) by (nonlinear_arith);
}

proof fn lemma_first_zero(shape: Seq<usize>)
    ensures
        first_zero(shape) <= shape.len(),
        no_zero(shape.take(first_zero(shape) as int)),
        first_zero(shape) < shape.len() ==> shape[first_zero(shape) as int] == 0,
    decreases shape.len(),
{
    if shape.len() > 0 && shape[0] != 0 {
        let rest = shape.drop_first();
        lemma_first_zero(rest);
        let z = first_zero(shape) as int;
        assert(shape.take(z).drop_first() =~= rest.take(z - 1));
        assert forall|k: int| 0 <= k < z implies shape.take(z)[k] > 0 by {
            if k > 0 {
                assert(rest.take(z - 1)[k - 1] > 0);
            }
        }
    }
}

proof fn lemma_first_zero_is(shape: Seq<usize>, z: nat)
    requires
        z <= shape.len(),
        no_zero(shape.take(z as int)),
        z < shape.len() ==> shape[z as int] == 0,
    ensures
        first_zero(shape) == z,
    decreases shape.len(),
{
    lemma_first_zero(shape);
    let f = first_zero(shape);
    if f < z {
        assert(shape.take(z as int)[f as int] > 0);
    } else if z < f {
        assert(shape.take(f as int)[z as int] > 0);
    }
}

/// A shape without zero dimensions has no first zero.
pub proof fn lemma_first_zero_of_no_zero(shape: Seq<usize>)
    requires
        no_zero(shape),
    ensures
        first_zero(shape) == shape.len(),
        shape.take(first_zero(shape) as int) == shape,
{
    assert(shape.take(shape.len() as int) =~= shape);
    lemma_first_zero_is(shape, shape.len());
}

/// The number of elements of a shape, where it has no zero dimension and fits
/// the machine. The dimensions are read from the first to the last, and the
/// first obstacle decides the error.
pub fn checked_shape_size(shape: &[usize]) -> (r: Result<usize>)
    ensures
        size_of_shape(shape@.take(first_zero(shape@) as int)) > usize::MAX ==> is_invalid(
            r,
            "shape size overflows usize"@,
        ),
        size_of_shape(shape@.take(first_zero(shape@) as int)) <= usize::MAX && !no_zero(shape@)
            ==> is_invalid(r, "shape dimensions must be non-zero"@),
        no_zero(shape@) && size_of_shape(shape@) <= usize::MAX ==> r is Ok && r->Ok_0
            == size_of_shape(shape@),
        r is Ok ==> no_zero(shape@) && r->Ok_0 == size_of_shape(shape@),
{
    let mut acc: usize = 1;
    let mut i: usize = 0;
    while i < shape.len()
        invariant
            i <= shape.len(),
            acc == size_of_shape(shape@.take(i as int)),
            no_zero(shape@.take(i as int)),
        decreases shape.len() - i,
    {
        if shape[i] == 0 {
            proof {
                lemma_first_zero_is(shape@, i as nat);
            }
            return Err(RustySatError::invalid_input("shape dimensions must be non-zero"));
        }
        proof {
            let head = shape@.take(i + 1);
            lemma_size_split(head, i as int);
            assert(head.take(i as int) =~= shape@.take(i as int));
            assert(head.skip(i as int) =~= seq![shape@[i as int]]);
            assert(seq![shape@[i as int]].drop_first().len() == 0);
            assert(size_of_shape(seq![shape@[i as int]]) == shape@[i as int]) by {
                reveal_with_fuel(size_of_shape, 2);
            }
            assert forall|k: int| 0 <= k < head.len() implies head[k] > 0 by {
                if k < i {
                    assert(shape@.take(i as int)[k] > 0);
                }
            }
        }
        match acc.checked_mul(shape[i]) {
            Some(next) => {
                acc = next;
            },
            None => {
                proof {
                    lemma_first_zero(shape@);
                    let z = first_zero(shape@) as int;
                    let prefix = shape@.take(z);
                    if z <= i {
                        assert(shape@.take(i + 1)[z] > 0);
                    }
                    assert(prefix.take(i + 1) =~= shape@.take(i + 1));
                    lemma_part_bounded(prefix, i + 1);
                    if no_zero(shape@) {
                        assert(shape@.take(shape@.len() as int) =~= shape@);
                        lemma_first_zero_is(shape@, shape@.len());
                    }
                }
                return Err(RustySatError::invalid_input("shape size overflows usize"));
            },
        }
        i = i + 1;
    }
    proof {
        assert(shape@.take(i as int) =~= shape@);
        lemma_first_zero_is(shape@, shape@.len());
    }
    Ok(acc)
}

/// Whether some trailing part of the shape is too large for the machine.
pub open spec fn strides_overflow(shape: Seq<usize>) -> bool {
    exists|k: int| 0 <= k <= shape.len() && #[trigger] size_of_shape(shape.skip(k)) > usize::MAX
}

/// The strides of a row-major array.
pub fn row_major_strides(shape: &[usize]) -> (r: Result<Vec<usize>>)
    ensures
        strides_overflow(shape@) ==> is_invalid(r, "stride size overflows usize"@),
        !strides_overflow(shape@) ==> r is Ok,
        r is Ok ==> {
            &&& r->Ok_0@.len() == shape@.len()
            &&& forall|k: int| 0 <= k < shape@.len() ==> r->Ok_0@[k] == stride(shape@, k)
        },
{
    let mut strides: Vec<usize> = vec![1; shape.len()];
    let mut stride_here: usize = 1;
    let mut i: usize = shape.len();
    assert(shape@.skip(shape@.len() as int).len() == 0);
    while i > 0
        invariant
            i <= shape.len(),
            strides@.len() == shape@.len(),
            stride_here == size_of_shape(shape@.skip(i as int)),
            forall|k: int| i <= k < shape@.len() ==> strides@[k] == stride(shape@, k),
            forall|k: int| i <= k <= shape@.len() ==> #[trigger] size_of_shape(shape@.skip(k))
                <= usize::MAX,
        decreases i,
    {
        i = i - 1;
        strides.set(i, stride_here);
        proof {
            assert(shape@.skip(i as int).drop_first() =~= shape@.skip(i + 1));
            assert(shape@[i as int] as nat * stride_here as nat == stride_here * shape@[i as int])
                by (nonlinear_arith);
        }
        match stride_here.checked_mul(shape[i]) {
            Some(next) => {
                stride_here = next;
            },
            None => {
                assert(size_of_shape(shape@.skip(i as int)) > usize::MAX);
                return Err(RustySatError::invalid_input("stride size overflows usize"));
            },
        }
    }
    Ok(strides)
}

/// A shape whose size fits the machine and that has no zero dimension has strides.
pub proof fn lemma_no_overflow(shape: Seq<usize>)
    requires
        no_zero(shape),
        size_of_shape(shape) <= usize::MAX,
    ensures
        !strides_overflow(shape),
{
    assert forall|k: int| 0 <= k <= shape.len() implies #[trigger] size_of_shape(shape.skip(k))
        <= usize::MAX by {
        lemma_part_bounded(shape, k);
    }
}

/// Whether `strides` are the strides of `shape`.
pub open spec fn strides_of(strides: Seq<usize>, shape: Seq<usize>) -> bool {
    &&& strides.len() == shape.len()
    &&& forall|k: int| 0 <= k < shape.len() ==> strides[k] == stride(shape, k)
}

/// The offset of the element with the given indices.
pub fn linear_index(indices: &[usize], shape: &[usize], strides: &[usize]) -> (r: usize)
    requires
        in_bounds(shape@, indices@.map_values(|i: usize| i as nat)),
        strides_of(strides@, shape@),
        size_of_shape(shape@) <= usize::MAX,
    ensures
        r == ravel(shape@, indices@.map_values(|i: usize| i as nat)),
        r < size_of_shape(shape@),
{
    let ghost idx = indices@.map_values(|i: usize| i as nat);
    let mut sum: usize = 0;
    let mut k: usize = 0;
    proof {
        assert(shape@.skip(0) =~= shape@);
        assert(idx.skip(0) =~= idx);
        lemma_ravel_bounded(shape@, idx);
    }
    while k < shape.len()
        invariant
            k <= shape.len(),
            idx == indices@.map_values(|i: usize| i as nat),
            in_bounds(shape@, idx),
            strides_of(strides@, shape@),
            ravel(shape@, idx) < size_of_shape(shape@) <= usize::MAX,
            sum + ravel(shape@.skip(k as int), idx.skip(k as int)) == ravel(shape@, idx),
        decreases shape.len() - k,
    {
        proof {
            let s = shape@.skip(k as int);
            assert(s.drop_first() =~= shape@.skip(k + 1));
            assert(idx.skip(k as int).drop_first() =~= idx.skip(k + 1));
            assert(idx.skip(k as int)[0] == indices@[k as int]);
        }
        sum = sum + indices[k] * strides[k];
        k = k + 1;
    }
    sum
}

/// The indices along each axis of the element at `offset`.
pub fn unravel_offset(offset: usize, shape: &[usize], strides: &[usize]) -> (r: Vec<usize>)
    requires
        no_zero(shape@),
        strides_of(strides@, shape@),
    ensures
        r@.map_values(|i: usize| i as nat) == unravel(shape@, offset as nat),
{
    let mut out: Vec<usize> = Vec::new();
    let mut k: usize = 0;
    while k < shape.len()
        invariant
            k <= shape.len(),
            no_zero(shape@),
            strides_of(strides@, shape@),
            out@.len() == k,
            forall|j: int| 0 <= j < k ==> out@[j] == unravel(shape@, offset as nat)[j],
        decreases shape.len() - k,
    {
        proof {
            lemma_size_positive(shape@.skip(k + 1));
        }
        out.push((offset / strides[k]) % shape[k]);
        k = k + 1;
    }
    assert(out@.map_values(|i: usize| i as nat) =~= unravel(shape@, offset as nat));
    out
}

/// The number of a pixel of a plane lies inside it and names its row and its column.
pub proof fn lemma_pixel_inside(y: int, x: int, height: int, width: int)
    requires
        0 <= y < height,
        0 <= x < width,
    ensures
        0 <= y * width + x < height * width,
        (y * width + x) / width == y,
        (y * width + x) % width == x,
{
    lemma_fundamental_div_mod_converse(y * width + x, width, y, x);
    assert(0 <= y * width && y * width + x < height * width) by (nonlinear_arith)
        requires
            0 <= y < height,
            0 <= x < width,
    ;
}

} // verus!
