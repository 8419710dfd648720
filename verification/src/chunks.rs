//! Planes that are read in chunks.

use crate::error::{is_invalid, Result, RustySatError};
use crate::tiff_layout::tiles_along;
use vstd::prelude::*;

verus! {

/// The size of a plane and of its chunks, as mathematical values.
#[verifier::ext_equal]
pub struct ChunkView {
    pub height: usize,
    pub width: usize,
    pub chunk_y: usize,
    pub chunk_x: usize,
}

/// The size of a plane and of its chunks. The chunks at the ends may be smaller.
#[derive(Clone, Copy, Debug, PartialEq, Eq)]
pub struct ChunkGrid {
    height: usize,
    width: usize,
    chunk_y: usize,
    chunk_x: usize,
}

impl View for ChunkGrid {
    type V = ChunkView;

    closed spec fn view(&self) -> ChunkView {
        ChunkView {
            height: self.height,
            width: self.width,
            chunk_y: self.chunk_y,
            chunk_x: self.chunk_x,
        }
    }
}

/// What holds of every plane in chunks.
pub open spec fn chunks_ok(c: ChunkView) -> bool {
    &&& c.chunk_y > 0
    &&& c.chunk_x > 0
    &&& c.height * c.width <= usize::MAX
}

impl ChunkView {
    /// The number of chunks down the plane.
    pub open spec fn down(self) -> int {
        if self.height == 0 {
            0
        } else {
            tiles_along(self.height as int, self.chunk_y as int)
        }
    }

    /// The number of chunks across the plane.
    pub open spec fn across(self) -> int {
        if self.width == 0 {
            0
        } else {
            tiles_along(self.width as int, self.chunk_x as int)
        }
    }

    /// The height of the chunks in a row of chunks.
    pub open spec fn rows(self, cy: int) -> int {
        let rest = self.height - cy * self.chunk_y;
        if rest < self.chunk_y {
            rest
        } else {
            self.chunk_y as int
        }
    }

    /// The width of the chunks in a column of chunks.
    pub open spec fn columns(self, cx: int) -> int {
        let rest = self.width - cx * self.chunk_x;
        if rest < self.chunk_x {
            rest
        } else {
            self.chunk_x as int
        }
    }
}

/// The number of parts of a size that a length needs.
fn parts(size: usize, part: usize) -> (r: usize)
    requires
        part > 0,
    ensures
        size == 0 ==> r == 0,
        size > 0 ==> r == tiles_along(size as int, part as int),
        r <= size,
{
    if size == 0 {
        return 0;
    }
    proof {
        crate::tiff_layout::lemma_tiles_along(size as int, part as int);
        vstd::arithmetic::div_mod::lemma_fundamental_div_mod(size - 1, part as int);
        let q = (size - 1) / (part as int);
        let m = (size - 1) % (part as int);
        let t = tiles_along(size as int, part as int);
        assert(q + 1 == t && q + 1 <= size) by (nonlinear_arith)
            requires
                size - 1 == part * q + m,
                0 <= m < part,
                (t - 1) * part < size <= t * part,
                size > 0,
                part > 0,
        ;
    }
    (size - 1) / part + 1
}

impl ChunkGrid {
    #[verifier::type_invariant]
    pub open spec fn inv(&self) -> bool {
        chunks_ok(self@)
    }

    pub fn new(height: usize, width: usize, chunk_y: usize, chunk_x: usize) -> (r: Result<Self>)
        ensures
            chunk_y == 0 || chunk_x == 0 ==> is_invalid(r, "chunk sizes must be non-zero"@),
            chunk_y > 0 && chunk_x > 0 && height * width > usize::MAX ==> is_invalid(
                r,
                "chunked plane size overflows usize"@,
            ),
            chunk_y > 0 && chunk_x > 0 && height * width <= usize::MAX ==> r is Ok && r->Ok_0@ == (
            ChunkView { height, width, chunk_y, chunk_x }),
    {
        if chunk_y == 0 || chunk_x == 0 {
            return Err(RustySatError::invalid_input("chunk sizes must be non-zero"));
        }
        match height.checked_mul(width) {
            Some(_) => Ok(ChunkGrid { height, width, chunk_y, chunk_x }),
            None => Err(RustySatError::invalid_input("chunked plane size overflows usize")),
        }
    }

    pub fn shape(&self) -> (r: (usize, usize))
        ensures
            r == (self@.height, self@.width),
    {
        (self.height, self.width)
    }

    pub fn chunk_shape(&self) -> (r: (usize, usize))
        ensures
            r == (self@.chunk_y, self@.chunk_x),
            r.0 > 0,
            r.1 > 0,
    {
        proof {
            use_type_invariant(self);
        }
        (self.chunk_y, self.chunk_x)
    }

    /// The number of chunks down and across the plane.
    pub fn counts(&self) -> (r: (usize, usize))
        ensures
            r.0 == self@.down(),
            r.1 == self@.across(),
            r.0 * r.1 <= usize::MAX,
    {
        proof {
            use_type_invariant(self);
        }
        let down: usize = parts(self.height, self.chunk_y);
        let across: usize = parts(self.width, self.chunk_x);
        assert(0 <= down * across <= self.height * self.width) by (nonlinear_arith)
            requires
                0 <= down <= self.height,
                0 <= across <= self.width,
        ;
        (down, across)
    }
}

/// A pixel lies in one of the chunks, at a place inside it.
pub proof fn lemma_pixel_in_chunk(c: ChunkView, y: int, x: int)
    requires
        chunks_ok(c),
        0 <= y < c.height,
        0 <= x < c.width,
    ensures
        0 <= y / (c.chunk_y as int) < c.down(),
        0 <= x / (c.chunk_x as int) < c.across(),
        0 <= y % (c.chunk_y as int) < c.rows(y / (c.chunk_y as int)),
        0 <= x % (c.chunk_x as int) < c.columns(x / (c.chunk_x as int)),
{
    lemma_place(c.height as int, c.chunk_y as int, y);
    lemma_place(c.width as int, c.chunk_x as int, x);
}

proof fn lemma_place(size: int, part: int, i: int)
    requires
        part > 0,
        0 <= i < size,
    ensures
        0 <= i / part < tiles_along(size, part),
        0 <= i % part < part,
        i % part < size - (i / part) * part,
{
    crate::tiff_layout::lemma_tiles_along(size, part);
    vstd::arithmetic::div_mod::lemma_fundamental_div_mod(i, part);
    let q = i / part;
    let m = i % part;
    let t = tiles_along(size, part);
    assert(0 <= q < t && m < size - q * part) by (nonlinear_arith)
        requires
            i == part * q + m,
            0 <= m < part,
            0 <= i < size,
            size <= t * part,
            part > 0,
    ;
}

} // verus!
