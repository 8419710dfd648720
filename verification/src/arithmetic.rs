//! The arithmetic of numbers that resampling rests on, as functions that are handed in.

use crate::bilinear::BilinearCell;
use crate::ewa::{bounds_ok, gaps_ok, weights_ok, Reach};
use crate::number::F64;
use vstd::prelude::*;

verus! {

/// The arithmetic by which a resampler puts a data set on a destination.
pub trait ResampleArithmetic: Sized {
    type Centre: Fn(usize, usize) -> (F64, F64);

    type Place: Fn(F64, F64) -> (F64, F64);

    type Gap: Fn(F64, F64, usize, usize) -> F64;

    type Distance: Fn(F64, F64, F64, F64) -> F64;

    type Mix: Fn(F64, F64, F64, F64, BilinearCell) -> F64;

    type Mean: Fn(Vec<F64>) -> F64;

    type Cell: Fn(F64, F64) -> (F64, F64);

    type Total: Fn(Vec<F64>) -> F64;

    type Ratio: Fn(usize, usize) -> F64;

    type Square: Fn(F64) -> F64;

    type Bounds: Fn(F64, F64) -> Reach;

    type Spread: Fn(F64, F64, usize, usize) -> F64;

    type Weight: Fn(F64) -> F64;

    type Average: Fn(Vec<(F64, F64)>) -> (F64, F64);

    spec fn centre_of(&self) -> Self::Centre;

    spec fn place_of(&self) -> Self::Place;

    spec fn gap_of(&self) -> Self::Gap;

    spec fn distance_of(&self) -> Self::Distance;

    spec fn mix_of(&self) -> Self::Mix;

    spec fn mean_of(&self) -> Self::Mean;

    spec fn cell_of(&self) -> Self::Cell;

    spec fn total_of(&self) -> Self::Total;

    spec fn ratio_of(&self) -> Self::Ratio;

    spec fn square_of(&self) -> Self::Square;

    spec fn bounds_of(&self) -> Self::Bounds;

    spec fn reach_of(&self) -> Self::Spread;

    spec fn weight_of(&self) -> Self::Weight;

    spec fn average_of(&self) -> Self::Average;

    /// The centre of a pixel of the destination, by its row and its column.
    fn centre(&self) -> (r: &Self::Centre)
        ensures
            *r == self.centre_of(),
    ;

    /// The column and the row of a position among the pixels of the source area.
    fn place(&self) -> (r: &Self::Place)
        ensures
            *r == self.place_of(),
    ;

    /// The distance of a position from the centre of a pixel of the source area.
    fn gap(&self) -> (r: &Self::Gap)
        ensures
            *r == self.gap_of(),
    ;

    /// The distance of two positions.
    fn distance(&self) -> (r: &Self::Distance)
        ensures
            *r == self.distance_of(),
    ;

    /// The weighted mean of the four values around a place.
    fn mix(&self) -> (r: &Self::Mix)
        ensures
            *r == self.mix_of(),
    ;

    /// The mean of a list of values.
    fn mean(&self) -> (r: &Self::Mean)
        ensures
            *r == self.mean_of(),
    ;

    /// The column and the row of a position, counted from the corner of the destination.
    fn cell(&self) -> (r: &Self::Cell)
        ensures
            *r == self.cell_of(),
    ;

    /// The sum of a list of values.
    fn total(&self) -> (r: &Self::Total)
        ensures
            *r == self.total_of(),
    ;

    /// The ratio of two counts.
    fn ratio(&self) -> (r: &Self::Ratio)
        ensures
            *r == self.ratio_of(),
    ;

    /// The square of a number.
    fn square(&self) -> (r: &Self::Square)
        ensures
            *r == self.square_of(),
    ;

    /// What a position reaches among the pixels of the destination.
    fn bounds(&self) -> (r: &Self::Bounds)
        ensures
            *r == self.bounds_of(),
    ;

    /// The squared distance of a position from the centre of a pixel of the destination.
    fn reach(&self) -> (r: &Self::Spread)
        ensures
            *r == self.reach_of(),
    ;

    /// The weight at a squared distance.
    fn weight(&self) -> (r: &Self::Weight)
        ensures
            *r == self.weight_of(),
    ;

    /// The weighted mean of values with weights, and the sum of the weights.
    fn average(&self) -> (r: &Self::Average)
        ensures
            *r == self.average_of(),
    ;
}

/// Functions for the arithmetic of a resampler on a destination.
pub struct ResampleFunctions<
    Centre,
    Place,
    Gap,
    Distance,
    Mix,
    Mean,
    Cell,
    Total,
    Ratio,
    Square,
    Bounds,
    Spread,
    Weight,
    Average,
> {
    pub centre: Centre,
    pub place: Place,
    pub gap: Gap,
    pub distance: Distance,
    pub mix: Mix,
    pub mean: Mean,
    pub cell: Cell,
    pub total: Total,
    pub ratio: Ratio,
    pub square: Square,
    pub bounds: Bounds,
    pub reach: Spread,
    pub weight: Weight,
    pub average: Average,
}

impl<
    Centre: Fn(usize, usize) -> (F64, F64),
    Place: Fn(F64, F64) -> (F64, F64),
    Gap: Fn(F64, F64, usize, usize) -> F64,
    Distance: Fn(F64, F64, F64, F64) -> F64,
    Mix: Fn(F64, F64, F64, F64, BilinearCell) -> F64,
    Mean: Fn(Vec<F64>) -> F64,
    Cell: Fn(F64, F64) -> (F64, F64),
    Total: Fn(Vec<F64>) -> F64,
    Ratio: Fn(usize, usize) -> F64,
    Square: Fn(F64) -> F64,
    Bounds: Fn(F64, F64) -> Reach,
    Spread: Fn(F64, F64, usize, usize) -> F64,
    Weight: Fn(F64) -> F64,
    Average: Fn(Vec<(F64, F64)>) -> (F64, F64),
> ResampleArithmetic for ResampleFunctions<
    Centre,
    Place,
    Gap,
    Distance,
    Mix,
    Mean,
    Cell,
    Total,
    Ratio,
    Square,
    Bounds,
    Spread,
    Weight,
    Average,
> {
    type Centre = Centre;

    type Place = Place;

    type Gap = Gap;

    type Distance = Distance;

    type Mix = Mix;

    type Mean = Mean;

    type Cell = Cell;

    type Total = Total;

    type Ratio = Ratio;

    type Square = Square;

    type Bounds = Bounds;

    type Spread = Spread;

    type Weight = Weight;

    type Average = Average;

    open spec fn centre_of(&self) -> Centre {
        self.centre
    }

    open spec fn place_of(&self) -> Place {
        self.place
    }

    open spec fn gap_of(&self) -> Gap {
        self.gap
    }

    open spec fn distance_of(&self) -> Distance {
        self.distance
    }

    open spec fn mix_of(&self) -> Mix {
        self.mix
    }

    open spec fn mean_of(&self) -> Mean {
        self.mean
    }

    open spec fn cell_of(&self) -> Cell {
        self.cell
    }

    open spec fn total_of(&self) -> Total {
        self.total
    }

    open spec fn ratio_of(&self) -> Ratio {
        self.ratio
    }

    open spec fn square_of(&self) -> Square {
        self.square
    }

    open spec fn bounds_of(&self) -> Bounds {
        self.bounds
    }

    open spec fn reach_of(&self) -> Spread {
        self.reach
    }

    open spec fn weight_of(&self) -> Weight {
        self.weight
    }

    open spec fn average_of(&self) -> Average {
        self.average
    }

    fn centre(&self) -> (r: &Centre) {
        &self.centre
    }

    fn place(&self) -> (r: &Place) {
        &self.place
    }

    fn gap(&self) -> (r: &Gap) {
        &self.gap
    }

    fn distance(&self) -> (r: &Distance) {
        &self.distance
    }

    fn mix(&self) -> (r: &Mix) {
        &self.mix
    }

    fn mean(&self) -> (r: &Mean) {
        &self.mean
    }

    fn cell(&self) -> (r: &Cell) {
        &self.cell
    }

    fn total(&self) -> (r: &Total) {
        &self.total
    }

    fn ratio(&self) -> (r: &Ratio) {
        &self.ratio
    }

    fn square(&self) -> (r: &Square) {
        &self.square
    }

    fn bounds(&self) -> (r: &Bounds) {
        &self.bounds
    }

    fn reach(&self) -> (r: &Spread) {
        &self.reach
    }

    fn weight(&self) -> (r: &Weight) {
        &self.weight
    }

    fn average(&self) -> (r: &Average) {
        &self.average
    }
}

/// Whether the functions take every argument. What a position reaches, its squared distance
/// from a pixel and the weight there depend on nothing else.
pub open spec fn resamples_all<K: ResampleArithmetic>(k: K) -> bool {
    &&& forall|y: usize, x: usize| #[trigger] k.centre_of().requires((y, x))
    &&& forall|x: F64, y: F64| #[trigger] k.place_of().requires((x, y))
    &&& forall|x: F64, y: F64, row: usize, column: usize| #[trigger]
        k.gap_of().requires((x, y, row, column))
    &&& forall|a: F64, b: F64, c: F64, d: F64| #[trigger] k.distance_of().requires((a, b, c, d))
    &&& forall|a: F64, b: F64, d: F64, e: F64, c: BilinearCell| #[trigger]
        k.mix_of().requires((a, b, d, e, c))
    &&& forall|v: Vec<F64>| #[trigger] k.mean_of().requires((v,))
    &&& forall|a: F64, b: F64| #[trigger] k.cell_of().requires((a, b))
    &&& forall|v: Vec<F64>| #[trigger] k.total_of().requires((v,))
    &&& forall|p: usize, q: usize| #[trigger] k.ratio_of().requires((p, q))
    &&& forall|v: F64| #[trigger] k.square_of().requires((v,))
    &&& bounds_ok(k.bounds_of())
    &&& gaps_ok(k.reach_of())
    &&& weights_ok(k.weight_of())
    &&& forall|v: Vec<(F64, F64)>| #[trigger] k.average_of().requires((v,))
}

/// The arithmetic by which an area is cut to the part that another one covers.
pub trait SliceArithmetic: Sized {
    type Read: Fn(String) -> Option<(F64, String)>;

    type PixelSize: Fn(F64, F64, usize) -> F64;

    type Column: Fn(F64, F64, F64) -> F64;

    type Row: Fn(F64, F64, F64) -> F64;

    type Excess: Fn(F64) -> F64;

    type Offset: Fn(F64, usize, F64) -> F64;

    type OffsetDown: Fn(F64, usize, F64) -> F64;

    spec fn read_of(&self) -> Self::Read;

    spec fn pixel_size_of(&self) -> Self::PixelSize;

    spec fn column_of(&self) -> Self::Column;

    spec fn row_of(&self) -> Self::Row;

    spec fn excess_of(&self) -> Self::Excess;

    spec fn offset_of(&self) -> Self::Offset;

    spec fn offset_down_of(&self) -> Self::OffsetDown;

    /// The number in a text, with its shortest text.
    fn read(&self) -> (r: &Self::Read)
        ensures
            *r == self.read_of(),
    ;

    /// A part of the way between two bounds.
    fn pixel_size(&self) -> (r: &Self::PixelSize)
        ensures
            *r == self.pixel_size_of(),
    ;

    /// The place of a coordinate among columns.
    fn column(&self) -> (r: &Self::Column)
        ensures
            *r == self.column_of(),
    ;

    /// The place of a coordinate among rows.
    fn row(&self) -> (r: &Self::Row)
        ensures
            *r == self.row_of(),
    ;

    /// The part of a number above the integer below it, less a half.
    fn excess(&self) -> (r: &Self::Excess)
        ensures
            *r == self.excess_of(),
    ;

    /// A bound and some pixels.
    fn offset(&self) -> (r: &Self::Offset)
        ensures
            *r == self.offset_of(),
    ;

    /// A bound less some pixels.
    fn offset_down(&self) -> (r: &Self::OffsetDown)
        ensures
            *r == self.offset_down_of(),
    ;
}

/// Functions for the arithmetic of parts of areas.
pub struct SliceFunctions<Read, PixelSize, Column, Row, Excess, Offset, OffsetDown> {
    pub read: Read,
    pub pixel_size: PixelSize,
    pub column: Column,
    pub row: Row,
    pub excess: Excess,
    pub offset: Offset,
    pub offset_down: OffsetDown,
}

impl<
    Read: Fn(String) -> Option<(F64, String)>,
    PixelSize: Fn(F64, F64, usize) -> F64,
    Column: Fn(F64, F64, F64) -> F64,
    Row: Fn(F64, F64, F64) -> F64,
    Excess: Fn(F64) -> F64,
    Offset: Fn(F64, usize, F64) -> F64,
    OffsetDown: Fn(F64, usize, F64) -> F64,
> SliceArithmetic for SliceFunctions<Read, PixelSize, Column, Row, Excess, Offset, OffsetDown> {
    type Read = Read;

    type PixelSize = PixelSize;

    type Column = Column;

    type Row = Row;

    type Excess = Excess;

    type Offset = Offset;

    type OffsetDown = OffsetDown;

    open spec fn read_of(&self) -> Read {
        self.read
    }

    open spec fn pixel_size_of(&self) -> PixelSize {
        self.pixel_size
    }

    open spec fn column_of(&self) -> Column {
        self.column
    }

    open spec fn row_of(&self) -> Row {
        self.row
    }

    open spec fn excess_of(&self) -> Excess {
        self.excess
    }

    open spec fn offset_of(&self) -> Offset {
        self.offset
    }

    open spec fn offset_down_of(&self) -> OffsetDown {
        self.offset_down
    }

    fn read(&self) -> (r: &Read) {
        &self.read
    }

    fn pixel_size(&self) -> (r: &PixelSize) {
        &self.pixel_size
    }

    fn column(&self) -> (r: &Column) {
        &self.column
    }

    fn row(&self) -> (r: &Row) {
        &self.row
    }

    fn excess(&self) -> (r: &Excess) {
        &self.excess
    }

    fn offset(&self) -> (r: &Offset) {
        &self.offset
    }

    fn offset_down(&self) -> (r: &OffsetDown) {
        &self.offset_down
    }
}

/// Whether the functions take every argument.
pub open spec fn slices_all<C: SliceArithmetic>(c: C) -> bool {
    &&& forall|s: String| #[trigger] c.read_of().requires((s,))
    &&& forall|a: F64, b: F64, n: usize| #[trigger] c.pixel_size_of().requires((a, b, n))
    &&& forall|a: F64, b: F64, d: F64| #[trigger] c.column_of().requires((a, b, d))
    &&& forall|a: F64, b: F64, d: F64| #[trigger] c.row_of().requires((a, b, d))
    &&& forall|v: F64| #[trigger] c.excess_of().requires((v,))
    &&& forall|a: F64, n: usize, b: F64| #[trigger] c.offset_of().requires((a, n, b))
    &&& forall|a: F64, n: usize, b: F64| #[trigger] c.offset_down_of().requires((a, n, b))
}

} // verus!
