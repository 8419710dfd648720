//! The neighbours of target pixels among source pixels, and sampling by them.

use crate::array::{
    any_set, array_ok, copy_values, count_set, has_value, masked_in, ArrayView, DataGrid,
};
use crate::assemble::{finish_grid, mask_of, plane_view};
use crate::error::{fails_with, is_invalid, is_unsupported, ErrorView, Result, RustySatError};
use crate::number::F64;
use crate::selection::{lemma_selects_next, lemma_selects_same, selects};
use crate::text::{
    decimal, join2, join4, join5, pair_notation, pair_text, size_text,
};
use vstd::prelude::*;

verus! {

/// What becomes of a target pixel without a value.
#[derive(Clone, Copy, Debug, PartialEq, Eq, Structural)]
pub enum SampleMissingPolicy {
    /// It has the fill value.
    FillValue,
    /// It has the fill value and is masked.
    Mask,
}

impl SampleMissingPolicy {
    pub fn masks_missing(self) -> (r: bool)
        ensures
            r == (self is Mask),
    {
        match self {
            SampleMissingPolicy::Mask => true,
            SampleMissingPolicy::FillValue => false,
        }
    }
}

/// A neighbour: its number among the valid source pixels, and its distance.
#[derive(Clone, Copy, Debug, PartialEq)]
pub struct Neighbour {
    pub reduced_source_index: usize,
    pub distance: F64,
}

impl Neighbour {
    pub fn new(reduced_source_index: usize, distance: F64) -> (r: Result<Self>)
        ensures
            !distance.finite() || distance.less(F64 { bits: 0 }) ==> is_invalid(
                r,
                "neighbour distance must be finite and non-negative"@,
            ),
            distance.finite() && !distance.less(F64 { bits: 0 }) ==> r is Ok && r->Ok_0 == (
            Neighbour { reduced_source_index, distance }),
    {
        if !distance.is_finite() || distance.lt(F64 { bits: 0 }) {
            return Err(
                RustySatError::invalid_input("neighbour distance must be finite and non-negative"),
            );
        }
        Ok(Neighbour { reduced_source_index, distance })
    }

    pub fn reduced_source_index(&self) -> (r: usize)
        ensures
            r == self.reduced_source_index,
    {
        self.reduced_source_index
    }

    pub fn distance(&self) -> (r: F64)
        ensures
            r == self.distance,
    {
        self.distance
    }
}

/// The positions of the flags that are set, in increasing order.
pub open spec fn set_positions(flags: Seq<bool>) -> Seq<usize>
    decreases flags.len(),
{
    if flags.len() == 0 {
        Seq::empty()
    } else {
        let before = set_positions(flags.drop_last());
        if flags.last() {
            before.push((flags.len() - 1) as usize)
        } else {
            before
        }
    }
}

/// There is one position for each flag that is set, and they are positions of flags.
pub proof fn lemma_set_positions(flags: Seq<bool>)
    requires
        flags.len() <= usize::MAX,
    ensures
        set_positions(flags).len() == count_set(flags),
        count_set(flags) <= flags.len(),
        forall|i: int|
            0 <= i < set_positions(flags).len() ==> (#[trigger] set_positions(flags)[i])
                < flags.len() && flags[set_positions(flags)[i] as int],
    decreases flags.len(),
{
    if flags.len() > 0 {
        let before = flags.drop_last();
        lemma_set_positions(before);
        assert forall|i: int| 0 <= i < set_positions(flags).len() implies (
        #[trigger] set_positions(flags)[i]) < flags.len() && flags[set_positions(
            flags,
        )[i] as int] by {
            if i < set_positions(before).len() {
                let p = set_positions(before)[i];
                assert(p < before.len() && before[p as int]);
                assert(set_positions(flags)[i] == p);
            }
        }
    }
}

/// The number of set flags grows with the part that is read.
proof fn lemma_count_grows(flags: Seq<bool>, a: int, b: int)
    requires
        0 <= a <= b <= flags.len(),
    ensures
        count_set(flags.take(a)) <= count_set(flags.take(b)),
    decreases b - a,
{
    if a < b {
        lemma_count_grows(flags, a, b - 1);
        assert(flags.take(b).drop_last() =~= flags.take(b - 1));
    }
}

/// Neighbours as a mathematical value.
#[verifier::ext_equal]
pub struct NeighbourView {
    pub source_size: usize,
    pub target_size: usize,
    pub neighbours: usize,
    pub valid_input: Seq<bool>,
    pub valid_output: Seq<bool>,
    pub index: Seq<usize>,
    pub distance: Seq<F64>,
}

/// What holds of all neighbours: a flag for each source and each target pixel, and the
/// same number of entries for each valid target pixel.
pub open spec fn neighbours_ok(v: NeighbourView) -> bool {
    &&& v.neighbours > 0
    &&& v.valid_input.len() == v.source_size
    &&& v.valid_output.len() == v.target_size
    &&& v.index.len() == count_set(v.valid_output) * v.neighbours
    &&& v.distance.len() == v.index.len()
    &&& v.index.len() <= usize::MAX
}

/// For each valid target pixel its neighbours, nearest first, as numbers among the
/// valid source pixels. The number of valid source pixels stands for no neighbour.
#[derive(Debug, PartialEq)]
pub struct NeighbourInfo {
    source_size: usize,
    target_size: usize,
    neighbours: usize,
    valid_input_index: Vec<bool>,
    valid_output_index: Vec<bool>,
    index_array: Vec<usize>,
    distance_array: Vec<F64>,
    valid_input_count: usize,
    valid_output_count: usize,
    reduced_to_source: Vec<usize>,
}

impl View for NeighbourInfo {
    type V = NeighbourView;

    closed spec fn view(&self) -> NeighbourView {
        NeighbourView {
            source_size: self.source_size,
            target_size: self.target_size,
            neighbours: self.neighbours,
            valid_input: self.valid_input_index@,
            valid_output: self.valid_output_index@,
            index: self.index_array@,
            distance: self.distance_array@,
        }
    }
}

impl Clone for NeighbourInfo {
    fn clone(&self) -> (r: Self)
        ensures
            r@ == self@,
    {
        proof {
            use_type_invariant(self);
        }
        NeighbourInfo {
            source_size: self.source_size,
            target_size: self.target_size,
            neighbours: self.neighbours,
            valid_input_index: copy_values(&self.valid_input_index),
            valid_output_index: copy_values(&self.valid_output_index),
            index_array: copy_values(&self.index_array),
            distance_array: copy_values(&self.distance_array),
            valid_input_count: self.valid_input_count,
            valid_output_count: self.valid_output_count,
            reduced_to_source: copy_values(&self.reduced_to_source),
        }
    }
}

/// The first obstacle of the parts of neighbours, if there is one.
pub open spec fn parts_error(v: NeighbourView) -> Option<ErrorView> {
    let expected = count_set(v.valid_output) * v.neighbours;
    if v.neighbours == 0 {
        Some(ErrorView::InvalidInput("neighbour count must be non-zero"@))
    } else if v.valid_input.len() != v.source_size {
        Some(
            ErrorView::InvalidInput(
                "valid_input_index length "@ + decimal(v.valid_input.len())
                    + " does not match source size "@ + decimal(v.source_size as nat),
            ),
        )
    } else if v.valid_output.len() != v.target_size {
        Some(
            ErrorView::InvalidInput(
                "valid_output_index length "@ + decimal(v.valid_output.len())
                    + " does not match target size "@ + decimal(v.target_size as nat),
            ),
        )
    } else if expected > usize::MAX {
        Some(ErrorView::InvalidInput("neighbour info size overflows usize"@))
    } else if v.index.len() != expected {
        Some(
            ErrorView::InvalidInput(
                "index_array length "@ + decimal(v.index.len())
                    + " does not match valid outputs * neighbours "@ + decimal(expected as nat),
            ),
        )
    } else if v.distance.len() != expected {
        Some(
            ErrorView::InvalidInput(
                "distance_array length "@ + decimal(v.distance.len())
                    + " does not match valid outputs * neighbours "@ + decimal(expected as nat),
            ),
        )
    } else {
        None
    }
}

/// The number of valid target pixels before the target pixel `output`, itself included.
pub open spec fn valid_up_to(v: NeighbourView, output: int) -> nat {
    count_set(v.valid_output.take(output + 1))
}

/// The neighbour of the valid target pixel `output` at place `k`.
pub open spec fn neighbour_at(v: NeighbourView, output: int, k: int) -> Option<Neighbour> {
    let at = (valid_up_to(v, output) - 1) * v.neighbours + k;
    if v.index[at] == count_set(v.valid_input) || !v.distance[at].finite() {
        None
    } else {
        Some(Neighbour { reduced_source_index: v.index[at], distance: v.distance[at] })
    }
}

/// The neighbours of a target pixel, where it is valid.
pub open spec fn neighbours_of(v: NeighbourView, output: int) -> Option<Seq<Option<Neighbour>>> {
    if v.valid_output[output] {
        Some(Seq::new(v.neighbours as nat, |k: int| neighbour_at(v, output, k)))
    } else {
        None
    }
}

/// The text of the error for a target pixel that does not exist.
pub open spec fn outside_text(output: usize, target_size: usize) -> Seq<char> {
    "output index "@ + decimal(output as nat) + " is outside target size "@ + decimal(
        target_size as nat,
    )
}

/// The text of the error for a number that is not one of a valid source pixel.
pub open spec fn reduced_text(reduced: usize, count: nat) -> Seq<char> {
    "reduced source index "@ + decimal(reduced as nat) + " is outside valid input count "@ + decimal(
        count,
    )
}

/// The nearest source pixel of a target pixel.
pub enum Lookup {
    /// There is none.
    Missing,
    /// Its number and its distance.
    At(usize, F64),
    /// The neighbours hold a number that is not one of a valid source pixel.
    Bad(usize),
}

/// The nearest source pixel of the target pixel `output`.
pub open spec fn lookup(v: NeighbourView, output: int) -> Lookup {
    if !v.valid_output[output] {
        Lookup::Missing
    } else {
        match neighbour_at(v, output, 0) {
            None => Lookup::Missing,
            Some(n) => if n.reduced_source_index < count_set(v.valid_input) {
                Lookup::At(
                    set_positions(v.valid_input)[n.reduced_source_index as int],
                    n.distance,
                )
            } else {
                Lookup::Bad(n.reduced_source_index)
            },
        }
    }
}

/// The number of flags that are set.
pub fn count_flags(flags: &Vec<bool>) -> (r: usize)
    ensures
        r == count_set(flags@),
        r <= flags@.len(),
{
    let mut n: usize = 0;
    let mut i: usize = 0;
    while i < flags.len()
        invariant
            i <= flags@.len(),
            n <= i,
            n == count_set(flags@.take(i as int)),
        decreases flags@.len() - i,
    {
        assert(flags@.take(i + 1).drop_last() =~= flags@.take(i as int));
        if flags[i] {
            n = n + 1;
        }
        i = i + 1;
    }
    assert(flags@.take(flags@.len() as int) =~= flags@);
    n
}

fn list_set_positions(flags: &Vec<bool>) -> (r: Vec<usize>)
    ensures
        r@ == set_positions(flags@),
{
    let mut out: Vec<usize> = Vec::new();
    let mut i: usize = 0;
    while i < flags.len()
        invariant
            i <= flags@.len(),
            out@ == set_positions(flags@.take(i as int)),
        decreases flags@.len() - i,
    {
        assert(flags@.take(i + 1).drop_last() =~= flags@.take(i as int));
        if flags[i] {
            out.push(i);
        }
        i = i + 1;
    }
    assert(flags@.take(flags@.len() as int) =~= flags@);
    out
}

fn sizes_error(a: &str, x: usize, b: &str, y: usize) -> (r: RustySatError)
    ensures
        r@ == ErrorView::InvalidInput(a@ + decimal(x as nat) + b@ + decimal(y as nat)),
{
    let m = size_text(x);
    let n = size_text(y);
    let text = join4(a, m.as_str(), b, n.as_str());
    RustySatError::invalid_input(text.as_str())
}

impl NeighbourInfo {
    /// What holds of every neighbour table: its lists have the sizes of the two geometries.
    #[verifier::type_invariant]
    pub open spec fn whole(&self) -> bool {
        &&& neighbours_ok(self@)
        &&& self.counted()
    }

    /// The numbers of valid pixels, and the places of those of the source, are kept.
    pub closed spec fn counted(&self) -> bool {
        &&& self.valid_input_count == count_set(self.valid_input_index@)
        &&& self.valid_output_count == count_set(self.valid_output_index@)
        &&& self.reduced_to_source@ == set_positions(self.valid_input_index@)
    }

    pub fn new(
        source_size: usize,
        target_size: usize,
        neighbours: usize,
        valid_input_index: Vec<bool>,
        valid_output_index: Vec<bool>,
        index_array: Vec<usize>,
        distance_array: Vec<F64>,
    ) -> (r: Result<Self>)
        ensures
            ({
                let v = NeighbourView {
                    source_size,
                    target_size,
                    neighbours,
                    valid_input: valid_input_index@,
                    valid_output: valid_output_index@,
                    index: index_array@,
                    distance: distance_array@,
                };
                match parts_error(v) {
                    Some(e) => fails_with(r, e),
                    None => r is Ok && r->Ok_0@ == v,
                }
            }),
    {
        if neighbours == 0 {
            return Err(RustySatError::invalid_input("neighbour count must be non-zero"));
        }
        if valid_input_index.len() != source_size {
            return Err(
                sizes_error(
                    "valid_input_index length ",
                    valid_input_index.len(),
                    " does not match source size ",
                    source_size,
                ),
            );
        }
        if valid_output_index.len() != target_size {
            return Err(
                sizes_error(
                    "valid_output_index length ",
                    valid_output_index.len(),
                    " does not match target size ",
                    target_size,
                ),
            );
        }
        let valid_input_count: usize = count_flags(&valid_input_index);
        let valid_output_count: usize = count_flags(&valid_output_index);
        let reduced_to_source = list_set_positions(&valid_input_index);
        let expected: usize = match valid_output_count.checked_mul(neighbours) {
            Some(n) => n,
            None => {
                return Err(RustySatError::invalid_input("neighbour info size overflows usize"));
            },
        };
        if index_array.len() != expected {
            return Err(
                sizes_error(
                    "index_array length ",
                    index_array.len(),
                    " does not match valid outputs * neighbours ",
                    expected,
                ),
            );
        }
        if distance_array.len() != expected {
            return Err(
                sizes_error(
                    "distance_array length ",
                    distance_array.len(),
                    " does not match valid outputs * neighbours ",
                    expected,
                ),
            );
        }
        Ok(
            NeighbourInfo {
                source_size,
                target_size,
                neighbours,
                valid_input_index,
                valid_output_index,
                index_array,
                distance_array,
                valid_input_count,
                valid_output_count,
                reduced_to_source,
            },
        )
    }

    pub fn source_size(&self) -> (r: usize)
        ensures
            r == self@.source_size,
    {
        self.source_size
    }

    pub fn target_size(&self) -> (r: usize)
        ensures
            r == self@.target_size,
    {
        self.target_size
    }

    pub fn neighbours(&self) -> (r: usize)
        ensures
            r == self@.neighbours,
    {
        self.neighbours
    }

    pub fn valid_input_index(&self) -> (r: &Vec<bool>)
        ensures
            r@ == self@.valid_input,
    {
        &self.valid_input_index
    }

    pub fn valid_output_index(&self) -> (r: &Vec<bool>)
        ensures
            r@ == self@.valid_output,
    {
        &self.valid_output_index
    }

    pub fn index_array(&self) -> (r: &Vec<usize>)
        ensures
            r@ == self@.index,
    {
        &self.index_array
    }

    pub fn distance_array(&self) -> (r: &Vec<F64>)
        ensures
            r@ == self@.distance,
    {
        &self.distance_array
    }

    /// The number of valid source pixels.
    pub fn valid_input_count(&self) -> (r: usize)
        ensures
            r == count_set(self@.valid_input),
    {
        proof {
            use_type_invariant(self);
        }
        self.valid_input_count
    }

    /// The number of valid target pixels.
    pub fn valid_output_count(&self) -> (r: usize)
        ensures
            r == count_set(self@.valid_output),
    {
        proof {
            use_type_invariant(self);
        }
        self.valid_output_count
    }

    /// The number that stands for no neighbour.
    pub fn missing_neighbour_index(&self) -> (r: usize)
        ensures
            r == count_set(self@.valid_input),
    {
        self.valid_input_count()
    }

    /// The place of a valid target pixel among the valid ones.
    fn valid_output_ordinal(&self, output_index: usize) -> (r: usize)
        requires
            output_index < self@.target_size,
            self@.valid_output[output_index as int],
        ensures
            r == valid_up_to(self@, output_index as int) - 1,
            r < count_set(self@.valid_output),
    {
        proof {
            use_type_invariant(self);
        }
        let ghost flags = self.valid_output_index@;
        let mut n: usize = 0;
        let mut i: usize = 0;
        while i < output_index
            invariant
                i <= output_index,
                output_index < flags.len(),
                flags == self.valid_output_index@,
                n <= i,
                n == count_set(flags.take(i as int)),
            decreases output_index - i,
        {
            assert(flags.take(i + 1).drop_last() =~= flags.take(i as int));
            if self.valid_output_index[i] {
                n = n + 1;
            }
            i = i + 1;
        }
        proof {
            let o = output_index as int;
            assert(flags.take(o + 1).drop_last() =~= flags.take(o));
            assert(flags.take(o + 1).last());
            lemma_count_grows(flags, o + 1, flags.len() as int);
            assert(flags.take(flags.len() as int) =~= flags);
        }
        n
    }

    /// The neighbours of a target pixel, or nothing where it is not valid.
    pub fn neighbours_for_output(&self, output_index: usize) -> (r: Result<
        Option<Vec<Option<Neighbour>>>,
    >)
        ensures
            output_index >= self@.target_size ==> is_invalid(
                r,
                outside_text(output_index, self@.target_size),
            ),
            output_index < self@.target_size ==> r is Ok && match r->Ok_0 {
                Some(list) => neighbours_of(self@, output_index as int) == Some(list@),
                None => neighbours_of(self@, output_index as int) is None,
            },
    {
        proof {
            use_type_invariant(self);
        }
        if output_index >= self.target_size {
            return Err(
                sizes_error(
                    "output index ",
                    output_index,
                    " is outside target size ",
                    self.target_size,
                ),
            );
        }
        if !self.valid_output_index[output_index] {
            return Ok(None);
        }
        let ordinal: usize = self.valid_output_ordinal(output_index);
        let ghost v = self@;
        let ghost total = count_set(v.valid_output);
        proof {
            assert(ordinal * v.neighbours + v.neighbours <= total * v.neighbours && 0 <= ordinal
                * v.neighbours) by (nonlinear_arith)
                requires
                    ordinal < total,
            ;
        }
        let start: usize = ordinal * self.neighbours;
        let missing: usize = self.missing_neighbour_index();
        let mut list: Vec<Option<Neighbour>> = Vec::new();
        let mut k: usize = 0;
        while k < self.neighbours
            invariant
                k <= self.neighbours,
                self.neighbours == v.neighbours,
                v == self@,
                missing == count_set(v.valid_input),
                start == (valid_up_to(v, output_index as int) - 1) * v.neighbours,
                start + v.neighbours <= v.index.len() <= usize::MAX,
                v.distance.len() == v.index.len(),
                list@.len() == k,
                forall|j: int| 0 <= j < k ==> list@[j] == neighbour_at(v, output_index as int, j),
            decreases self.neighbours - k,
        {
            let reduced_source_index: usize = self.index_array[start + k];
            let distance = self.distance_array[start + k];
            if reduced_source_index == missing || !distance.is_finite() {
                list.push(None);
            } else {
                list.push(Some(Neighbour { reduced_source_index, distance }));
            }
            k = k + 1;
        }
        assert(list@ =~= neighbours_of(v, output_index as int)->Some_0);
        Ok(Some(list))
    }

    /// The first neighbour of a target pixel.
    pub fn first_neighbour_for_output(&self, output_index: usize) -> (r: Result<Option<Neighbour>>)
        ensures
            output_index >= self@.target_size ==> is_invalid(
                r,
                outside_text(output_index, self@.target_size),
            ),
            output_index < self@.target_size ==> r is Ok && r->Ok_0 == if self@.valid_output[output_index as int] {
                neighbour_at(self@, output_index as int, 0)
            } else {
                None::<Neighbour>
            },
    {
        proof {
            use_type_invariant(self);
        }
        match self.neighbours_for_output(output_index) {
            Ok(Some(list)) => {
                assert(list@[0] == neighbour_at(self@, output_index as int, 0));
                Ok(list[0])
            },
            Ok(None) => Ok(None),
            Err(e) => Err(e),
        }
    }

    /// The source pixel with a number among the valid ones; nothing for the number that
    /// stands for no neighbour.
    pub fn source_index_for_reduced_index(&self, reduced_source_index: usize) -> (r: Result<
        Option<usize>,
    >)
        ensures
            reduced_source_index < count_set(self@.valid_input) ==> r is Ok && r->Ok_0 == Some(
                set_positions(self@.valid_input)[reduced_source_index as int],
            ) && r->Ok_0->Some_0 < self@.source_size
                && self@.valid_input[r->Ok_0->Some_0 as int],
            reduced_source_index == count_set(self@.valid_input) ==> r is Ok && r->Ok_0 is None,
            reduced_source_index > count_set(self@.valid_input) ==> is_invalid(
                r,
                reduced_text(reduced_source_index, count_set(self@.valid_input)),
            ),
    {
        proof {
            use_type_invariant(self);
            lemma_set_positions(self@.valid_input);
        }
        let missing: usize = self.missing_neighbour_index();
        if reduced_source_index == missing {
            return Ok(None);
        }
        if reduced_source_index < self.reduced_to_source.len() {
            Ok(Some(self.reduced_to_source[reduced_source_index]))
        } else {
            Err(
                sizes_error(
                    "reduced source index ",
                    reduced_source_index,
                    " is outside valid input count ",
                    missing,
                ),
            )
        }
    }

    /// The first source pixel of a target pixel and its distance.
    pub fn first_source_index_for_output(&self, output_index: usize) -> (r: Result<
        Option<(usize, F64)>,
    >)
        ensures
            output_index >= self@.target_size ==> is_invalid(
                r,
                outside_text(output_index, self@.target_size),
            ),
            output_index < self@.target_size ==> match lookup(self@, output_index as int) {
                Lookup::Missing => r is Ok && r->Ok_0 is None,
                Lookup::At(i, d) => r is Ok && r->Ok_0 == Some((i, d)) && i < self@.source_size,
                Lookup::Bad(n) => is_invalid(r, reduced_text(n, count_set(self@.valid_input))),
            },
    {
        proof {
            use_type_invariant(self);
            lemma_set_positions(self@.valid_input);
        }
        match self.first_neighbour_for_output(output_index) {
            Ok(Some(neighbour)) => {
                match self.source_index_for_reduced_index(neighbour.reduced_source_index) {
                    Ok(Some(source_index)) => Ok(Some((source_index, neighbour.distance))),
                    Ok(None) => Ok(None),
                    Err(e) => Err(e),
                }
            },
            Ok(None) => Ok(None),
            Err(e) => Err(e),
        }
    }
}

/// The numbers of the source pixels among the valid ones.
pub open spec fn reduced_numbers(flags: Seq<bool>) -> Seq<Option<usize>> {
    Seq::new(
        flags.len(),
        |i: int|
            if flags[i] {
                Some(count_set(flags.take(i)) as usize)
            } else {
                None
            },
    )
}

/// The numbers of the source pixels among the valid ones.
pub fn source_to_reduced_index(valid_input_index: &Vec<bool>) -> (r: Vec<Option<usize>>)
    ensures
        r@ == reduced_numbers(valid_input_index@),
{
    let ghost flags = valid_input_index@;
    let mut out: Vec<Option<usize>> = Vec::new();
    let mut reduced: usize = 0;
    let mut i: usize = 0;
    while i < valid_input_index.len()
        invariant
            i <= flags.len(),
            flags == valid_input_index@,
            reduced <= i,
            reduced == count_set(flags.take(i as int)),
            out@.len() == i,
            forall|j: int| 0 <= j < i ==> out@[j] == reduced_numbers(flags)[j],
        decreases flags.len() - i,
    {
        assert(flags.take(i + 1).drop_last() =~= flags.take(i as int));
        if valid_input_index[i] {
            out.push(Some(reduced));
            reduced = reduced + 1;
        } else {
            out.push(None);
        }
        i = i + 1;
    }
    assert(out@ =~= reduced_numbers(flags));
    out
}

/// The two numberings of the valid source pixels undo each other.
pub proof fn lemma_numberings_agree(flags: Seq<bool>, i: int)
    requires
        flags.len() <= usize::MAX,
        0 <= i < flags.len(),
        flags[i],
    ensures
        reduced_numbers(flags)[i] is Some,
        reduced_numbers(flags)[i]->Some_0 < count_set(flags),
        set_positions(flags)[reduced_numbers(flags)[i]->Some_0 as int] == i,
    decreases flags.len(),
{
    lemma_set_positions(flags);
    let last = flags.len() - 1;
    let before = flags.drop_last();
    lemma_set_positions(before);
    if i == last {
        assert(flags.take(i) =~= before);
    } else {
        lemma_numberings_agree(before, i);
        assert(before.take(i) =~= flags.take(i));
    }
}

/// The first obstacle of a sampling: the sizes of the source and of the target must be
/// those of the neighbours.
pub open spec fn geometry_error(
    source_len: nat,
    shape: (usize, usize),
    v: NeighbourView,
) -> Option<ErrorView> {
    if source_len != v.source_size {
        Some(
            ErrorView::InvalidInput(
                "source grid has "@ + decimal(source_len)
                    + " values but neighbour info source size is "@ + decimal(v.source_size as nat),
            ),
        )
    } else if shape.0 * shape.1 > usize::MAX {
        Some(ErrorView::InvalidInput("output shape size overflows usize"@))
    } else if shape.0 * shape.1 != v.target_size {
        Some(
            ErrorView::InvalidInput(
                ("output shape "@ + pair_notation(shape) + " has "@ + decimal(
                    (shape.0 * shape.1) as nat,
                ) + " pixels but neighbour info target size is "@) + decimal(v.target_size as nat),
            ),
        )
    } else {
        None
    }
}

fn validate_sampling_geometry(
    source_len: usize,
    output_shape: (usize, usize),
    info: &NeighbourInfo,
) -> (r: Result<usize>)
    ensures
        match geometry_error(source_len as nat, output_shape, info@) {
            Some(e) => fails_with(r, e),
            None => r is Ok && r->Ok_0 == info@.target_size,
        },
{
    if source_len != info.source_size() {
        return Err(
            sizes_error(
                "source grid has ",
                source_len,
                " values but neighbour info source size is ",
                info.source_size(),
            ),
        );
    }
    let output_size: usize = match output_shape.0.checked_mul(output_shape.1) {
        Some(n) => n,
        None => {
            return Err(RustySatError::invalid_input("output shape size overflows usize"));
        },
    };
    if output_size != info.target_size() {
        let p = pair_text(output_shape);
        let n = size_text(output_size);
        let t = size_text(info.target_size());
        let start = join5(
            "output shape ",
            p.as_str(),
            " has ",
            n.as_str(),
            " pixels but neighbour info target size is ",
        );
        let text = join2(start.as_str(), t.as_str());
        return Err(RustySatError::invalid_input(text.as_str()));
    }
    Ok(output_size)
}

/// The value of a target pixel: that of its nearest source pixel, or the fill value.
pub open spec fn nearest_value(a: ArrayView<F64>, v: NeighbourView, fill: F64, output: int) -> F64 {
    match lookup(v, output) {
        Lookup::At(i, _) => a.values[i as int],
        _ => fill,
    }
}

/// Whether a target pixel is masked: as its nearest source pixel, or as the policy says.
pub open spec fn nearest_flag(
    a: ArrayView<F64>,
    v: NeighbourView,
    policy: SampleMissingPolicy,
    output: int,
) -> bool {
    match lookup(v, output) {
        Lookup::At(i, _) => masked_in(a.mask, i as int),
        _ => policy is Mask,
    }
}

/// Whether `output` is the first target pixel whose neighbours hold a number that is
/// not one of a valid source pixel.
pub open spec fn first_bad(v: NeighbourView, output: int) -> bool {
    &&& 0 <= output < v.target_size
    &&& lookup(v, output) is Bad
    &&& forall|o: int| 0 <= o < output ==> !(#[trigger] lookup(v, o) is Bad)
}

/// The outcome of a nearest neighbour sampling.
pub open spec fn nearest_outcome(
    r: Result<DataGrid>,
    a: ArrayView<F64>,
    shape: (usize, usize),
    v: NeighbourView,
    fill: F64,
    policy: SampleMissingPolicy,
) -> bool {
    if v.neighbours != 1 {
        is_unsupported(r, "nearest neighbour sampling from multi-neighbour index arrays"@)
    } else {
        match geometry_error(a.values.len(), shape, v) {
            Some(e) => fails_with(r, e),
            None => {
                &&& forall|o: int| #[trigger]
                    first_bad(v, o) ==> is_invalid(
                        r,
                        reduced_text(lookup(v, o)->Bad_0, count_set(v.valid_input)),
                    )
                &&& (forall|o: int|
                    0 <= o < v.target_size ==> !(#[trigger] lookup(v, o) is Bad)) ==> r is Ok
                    && r->Ok_0@ == plane_view(
                    shape.0,
                    shape.1,
                    Seq::new(v.target_size as nat, |o: int| nearest_value(a, v, fill, o)),
                    Seq::new(v.target_size as nat, |o: int| nearest_flag(a, v, policy, o)),
                )
            },
        }
    }
}

/// Gives each target pixel the value of its nearest source pixel.
pub fn sample_nearest_from_neighbour_info(
    source_grid: &DataGrid,
    output_shape: (usize, usize),
    info: &NeighbourInfo,
    fill_value: F64,
    missing_policy: SampleMissingPolicy,
) -> (r: Result<DataGrid>)
    ensures
        nearest_outcome(r, source_grid@, output_shape, info@, fill_value, missing_policy),
{
    let ghost a = source_grid@;
    let ghost v = info@;
    proof {
        use_type_invariant(source_grid);
    }
    if info.neighbours() != 1 {
        return Err(
            RustySatError::unsupported(
                "nearest neighbour sampling from multi-neighbour index arrays",
            ),
        );
    }
    let output_size: usize = match validate_sampling_geometry(
        source_grid.values().len(),
        output_shape,
        info,
    ) {
        Ok(n) => n,
        Err(e) => {
            return Err(e);
        },
    };
    let mut values: Vec<F64> = Vec::new();
    let mut flags: Vec<bool> = Vec::new();
    let mut o: usize = 0;
    while o < output_size
        invariant
            o <= output_size,
            output_size == v.target_size,
            a == source_grid@,
            array_ok(a),
            v == info@,
            v.neighbours == 1,
            geometry_error(a.values.len(), output_shape, v) is None,
            values@.len() == o,
            flags@.len() == o,
            forall|j: int| 0 <= j < o ==> !(#[trigger] lookup(v, j) is Bad),
            forall|j: int| 0 <= j < o ==> values@[j] == nearest_value(a, v, fill_value, j),
            forall|j: int| 0 <= j < o ==> flags@[j] == nearest_flag(a, v, missing_policy, j),
        decreases output_size - o,
    {
        match info.first_source_index_for_output(o) {
            Ok(Some(found)) => {
                let at: usize = found.0;
                let masked = match source_grid.is_masked(at) {
                    Some(m) => m,
                    None => false,
                };
                values.push(source_grid.values()[at]);
                flags.push(masked);
            },
            Ok(None) => {
                values.push(fill_value);
                flags.push(missing_policy.masks_missing());
            },
            Err(e) => {
                proof {
                    assert(first_bad(v, o as int));
                    assert forall|k: int| #[trigger] first_bad(v, k) implies k == o by {
                        if k < o {
                            assert(!(lookup(v, k) is Bad));
                        } else if k > o {
                            assert(!(lookup(v, o as int) is Bad));
                        }
                    }
                }
                return Err(e);
            },
        }
        o = o + 1;
    }
    proof {
        assert(values@ =~= Seq::new(
            v.target_size as nat,
            |o: int| nearest_value(a, v, fill_value, o),
        ));
        assert(flags@ =~= Seq::new(
            v.target_size as nat,
            |o: int| nearest_flag(a, v, missing_policy, o),
        ));
    }
    finish_grid(output_shape.0, output_shape.1, values, flags)
}

/// Gives each target pixel the value of its nearest source pixel, from a grid that is
/// not needed any more.
pub fn sample_nearest_from_neighbour_info_owned(
    source_grid: DataGrid,
    output_shape: (usize, usize),
    info: &NeighbourInfo,
    fill_value: F64,
    missing_policy: SampleMissingPolicy,
) -> (r: Result<DataGrid>)
    ensures
        nearest_outcome(r, source_grid@, output_shape, info@, fill_value, missing_policy),
{
    sample_nearest_from_neighbour_info(
        &source_grid,
        output_shape,
        info,
        fill_value,
        missing_policy,
    )
}

/// Whether a source pixel takes no part in a weighted mean: it is masked, not finite, or
/// has the fill value.
pub open spec fn left_out(a: ArrayView<F64>, fill: F64, source: int) -> bool {
    ||| masked_in(a.mask, source)
    ||| !a.values[source].finite()
    ||| fill.finite() && a.values[source].same_number(fill)
}

/// Whether a weight counts: it is finite and greater than zero.
pub open spec fn usable_weight(w: F64) -> bool {
    w.finite() && !w.at_most(F64 { bits: 0 })
}

/// Whether the neighbour is no valid source pixel.
pub open spec fn bad_neighbour(v: NeighbourView, output: int, k: int) -> bool {
    match neighbour_at(v, output, k) {
        Some(n) => n.reduced_source_index > count_set(v.valid_input),
        None => false,
    }
}

/// The source pixel of a neighbour.
pub open spec fn source_of(v: NeighbourView, n: Neighbour) -> int {
    set_positions(v.valid_input)[n.reduced_source_index as int] as int
}

/// Whether `list` holds the values of the first `k` neighbours that take part, each with
/// the weight of its distance.
pub open spec fn weighs<W: Fn(F64) -> F64>(
    list: Seq<(F64, F64)>,
    a: ArrayView<F64>,
    v: NeighbourView,
    fill: F64,
    weight: W,
    output: int,
    k: nat,
) -> bool
    decreases k,
{
    if k == 0 {
        list.len() == 0
    } else {
        let before = (k - 1) as nat;
        match neighbour_at(v, output, k - 1) {
            None => weighs(list, a, v, fill, weight, output, before),
            Some(n) => if left_out(a, fill, source_of(v, n)) {
                weighs(list, a, v, fill, weight, output, before)
            } else {
                exists|w: F64| #[trigger]
                    weight.ensures((n.distance,), w) && if usable_weight(w) {
                        &&& list.len() > 0
                        &&& list.last() == (a.values[source_of(v, n)], w)
                        &&& weighs(list.drop_last(), a, v, fill, weight, output, before)
                    } else {
                        weighs(list, a, v, fill, weight, output, before)
                    }
            },
        }
    }
}

/// Whether `value` and `flag` are those of a target pixel: the mean of the neighbours
/// that take part, or the fill value where none does.
pub open spec fn weighted_pixel<W: Fn(F64) -> F64, A: Fn(Vec<(F64, F64)>) -> F64>(
    value: F64,
    flag: bool,
    a: ArrayView<F64>,
    v: NeighbourView,
    fill: F64,
    policy: SampleMissingPolicy,
    weight: W,
    average: A,
    output: int,
) -> bool {
    if !v.valid_output[output] {
        value == fill && flag == (policy is Mask)
    } else {
        exists|list: Vec<(F64, F64)>| #[trigger]
            weighs(list@, a, v, fill, weight, output, v.neighbours as nat) && if list@.len() == 0 {
                value == fill && flag == (policy is Mask)
            } else {
                average.ensures((list,), value) && !flag
            }
    }
}

/// Whether all neighbours of the target pixels before `(output, k)` are valid.
pub open spec fn good_before(v: NeighbourView, output: int, k: int) -> bool {
    &&& forall|o: int, j: int|
        0 <= o < output && v.valid_output[o] && 0 <= j < v.neighbours ==> !#[trigger] bad_neighbour(
            v,
            o,
            j,
        )
    &&& forall|j: int| 0 <= j < k ==> !#[trigger] bad_neighbour(v, output, j)
}

/// Whether `(output, k)` is the first neighbour that is no valid source pixel.
pub open spec fn first_bad_neighbour(v: NeighbourView, output: int, k: int) -> bool {
    &&& 0 <= output < v.target_size
    &&& v.valid_output[output]
    &&& 0 <= k < v.neighbours
    &&& bad_neighbour(v, output, k)
    &&& good_before(v, output, k)
}

/// The outcome of a weighted sampling.
pub open spec fn weighted_outcome<W: Fn(F64) -> F64, A: Fn(Vec<(F64, F64)>) -> F64>(
    r: Result<DataGrid>,
    a: ArrayView<F64>,
    shape: (usize, usize),
    v: NeighbourView,
    fill: F64,
    policy: SampleMissingPolicy,
    weight: W,
    average: A,
) -> bool {
    match geometry_error(a.values.len(), shape, v) {
        Some(e) => fails_with(r, e),
        None => {
            &&& r is Err ==> exists|o: int, k: int| #[trigger]
                first_bad_neighbour(v, o, k) && is_invalid(
                    r,
                    reduced_text(
                        neighbour_at(v, o, k)->Some_0.reduced_source_index,
                        count_set(v.valid_input),
                    ),
                )
            &&& good_before(v, v.target_size as int, 0) ==> r is Ok
            &&& r is Ok ==> good_before(v, v.target_size as int, 0) && exists|flags: Seq<bool>|
                r->Ok_0@ == #[trigger] plane_view(shape.0, shape.1, r->Ok_0@.values, flags)
                    && r->Ok_0@.values.len() == v.target_size && flags.len() == v.target_size
                    && forall|o: int|
                    0 <= o < v.target_size ==> weighted_pixel(
                        #[trigger] r->Ok_0@.values[o],
                        flags[o],
                        a,
                        v,
                        fill,
                        policy,
                        weight,
                        average,
                        o,
                    )
        },
    }
}

/// The values and weights of the neighbours of a target pixel that take part.
fn weighted_members<W: Fn(F64) -> F64>(
    output_index: usize,
    info: &NeighbourInfo,
    source_grid: &DataGrid,
    fill_value: F64,
    weight_fn: &W,
) -> (r: Result<Option<Vec<(F64, F64)>>>)
    requires
        output_index < info@.target_size,
        source_grid@.values.len() == info@.source_size,
        forall|d: F64| #[trigger] weight_fn.requires((d,)),
    ensures
        r is Err ==> exists|k: int|
            0 <= k < info@.neighbours && info@.valid_output[output_index as int]
                && #[trigger] bad_neighbour(info@, output_index as int, k) && (forall|j: int|
                0 <= j < k ==> !#[trigger] bad_neighbour(info@, output_index as int, j))
                && is_invalid(
                r,
                reduced_text(
                    neighbour_at(info@, output_index as int, k)->Some_0.reduced_source_index,
                    count_set(info@.valid_input),
                ),
            ),
        r is Ok && info@.valid_output[output_index as int] ==> r->Ok_0 is Some && weighs(
            r->Ok_0->Some_0@,
            source_grid@,
            info@,
            fill_value,
            *weight_fn,
            output_index as int,
            info@.neighbours as nat,
        ) && forall|j: int|
            0 <= j < info@.neighbours ==> !#[trigger] bad_neighbour(info@, output_index as int, j),
        r is Ok && !info@.valid_output[output_index as int] ==> r->Ok_0 is None,
{
    let ghost a = source_grid@;
    let ghost v = info@;
    let ghost o = output_index as int;
    proof {
        use_type_invariant(source_grid);
        use_type_invariant(info);
        lemma_set_positions(v.valid_input);
    }
    let neighbours = match info.neighbours_for_output(output_index) {
        Ok(Some(list)) => list,
        Ok(None) => {
            return Ok(None);
        },
        Err(e) => {
            return Err(e);
        },
    };
    let mut list: Vec<(F64, F64)> = Vec::new();
    let mut k: usize = 0;
    while k < neighbours.len()
        invariant
            k <= neighbours@.len(),
            a == source_grid@,
            v == info@,
            o == output_index,
            array_ok(a),
            neighbours_ok(v),
            a.values.len() == v.source_size,
            v.valid_output[o],
            neighbours@ == neighbours_of(v, o)->Some_0,
            set_positions(v.valid_input).len() == count_set(v.valid_input),
            forall|i: int|
                0 <= i < set_positions(v.valid_input).len() ==> (#[trigger] set_positions(
                    v.valid_input,
                )[i]) < v.source_size,
            forall|d: F64| #[trigger] weight_fn.requires((d,)),
            weighs(list@, a, v, fill_value, *weight_fn, o, k as nat),
            forall|j: int| 0 <= j < k ==> !#[trigger] bad_neighbour(v, o, j),
        decreases neighbours@.len() - k,
    {
        assert(neighbours@[k as int] == neighbour_at(v, o, k as int));
        match neighbours[k] {
            None => {
                assert(!bad_neighbour(v, o, k as int));
            },
            Some(neighbour) => {
                match info.source_index_for_reduced_index(neighbour.reduced_source_index) {
                    Err(e) => {
                        assert(bad_neighbour(v, o, k as int));
                        return Err(e);
                    },
                    Ok(None) => {
                        assert(false);
                    },
                    Ok(Some(source_index)) => {
                        assert(source_index == source_of(v, neighbour));
                        let masked = match source_grid.is_masked(source_index) {
                            Some(m) => m,
                            None => false,
                        };
                        let value = source_grid.values()[source_index];
                        if !(masked || !value.is_finite() || (fill_value.is_finite()
                            && value.equals(fill_value))) {
                            let w = weight_fn(neighbour.distance);
                            assert(weight_fn.ensures((neighbour.distance,), w));
                            if w.is_finite() && !w.le(F64 { bits: 0 }) {
                                let ghost before = list@;
                                list.push((value, w));
                                assert(list@.drop_last() =~= before);
                            }
                        }
                    },
                }
            },
        }
        k = k + 1;
    }
    Ok(Some(list))
}

/// Gives each target pixel the weighted mean of its neighbours. `weight_fn` gives the
/// weight of a distance, `average` the mean of values with weights.
pub fn sample_weighted_from_neighbour_info<W: Fn(F64) -> F64, A: Fn(Vec<(F64, F64)>) -> F64>(
    source_grid: &DataGrid,
    output_shape: (usize, usize),
    info: &NeighbourInfo,
    fill_value: F64,
    missing_policy: SampleMissingPolicy,
    weight_fn: &W,
    average: &A,
) -> (r: Result<DataGrid>)
    requires
        forall|d: F64| #[trigger] weight_fn.requires((d,)),
        forall|l: Vec<(F64, F64)>| #[trigger] average.requires((l,)),
    ensures
        weighted_outcome(
            r,
            source_grid@,
            output_shape,
            info@,
            fill_value,
            missing_policy,
            *weight_fn,
            *average,
        ),
{
    let ghost a = source_grid@;
    let ghost v = info@;
    let output_size: usize = match validate_sampling_geometry(
        source_grid.values().len(),
        output_shape,
        info,
    ) {
        Ok(n) => n,
        Err(e) => {
            return Err(e);
        },
    };
    let mut values: Vec<F64> = Vec::new();
    let mut flags: Vec<bool> = Vec::new();
    let mut o: usize = 0;
    while o < output_size
        invariant
            o <= output_size,
            output_size == v.target_size,
            a == source_grid@,
            v == info@,
            geometry_error(a.values.len(), output_shape, v) is None,
            forall|d: F64| #[trigger] weight_fn.requires((d,)),
            forall|l: Vec<(F64, F64)>| #[trigger] average.requires((l,)),
            values@.len() == o,
            flags@.len() == o,
            good_before(v, o as int, 0),
            forall|j: int|
                0 <= j < o ==> weighted_pixel(
                    #[trigger] values@[j],
                    flags@[j],
                    a,
                    v,
                    fill_value,
                    missing_policy,
                    *weight_fn,
                    *average,
                    j,
                ),
        decreases output_size - o,
    {
        let members = weighted_members(o, info, source_grid, fill_value, weight_fn);
        match members {
            Err(e) => {
                proof {
                    let k = choose|k: int|
                        0 <= k < v.neighbours && v.valid_output[o as int]
                            && #[trigger] bad_neighbour(v, o as int, k) && (forall|j: int|
                            0 <= j < k ==> !#[trigger] bad_neighbour(v, o as int, j)) && is_invalid(
                            members,
                            reduced_text(
                                neighbour_at(v, o as int, k)->Some_0.reduced_source_index,
                                count_set(v.valid_input),
                            ),
                        );
                    assert(first_bad_neighbour(v, o as int, k));
                    if good_before(v, v.target_size as int, 0) {
                        assert(!bad_neighbour(v, o as int, k));
                    }
                }
                return Err(e);
            },
            Ok(None) => {
                values.push(fill_value);
                flags.push(missing_policy.masks_missing());
            },
            Ok(Some(list)) => {
                if list.len() == 0 {
                    values.push(fill_value);
                    flags.push(missing_policy.masks_missing());
                } else {
                    let m = average(list);
                    values.push(m);
                    flags.push(false);
                }
            },
        }
        o = o + 1;
    }
    let ghost all = flags@;
    let out = finish_grid(output_shape.0, output_shape.1, values, flags);
    assert(out->Ok_0@ == plane_view(
        output_shape.0,
        output_shape.1,
        out->Ok_0@.values,
        all,
    ));
    out
}

/// Gives each target pixel the weighted mean of its neighbours, from a grid that is not
/// needed any more.
pub fn sample_weighted_from_neighbour_info_owned<
    W: Fn(F64) -> F64,
    A: Fn(Vec<(F64, F64)>) -> F64,
>(
    source_grid: DataGrid,
    output_shape: (usize, usize),
    info: &NeighbourInfo,
    fill_value: F64,
    missing_policy: SampleMissingPolicy,
    weight_fn: &W,
    average: &A,
) -> (r: Result<DataGrid>)
    requires
        forall|d: F64| #[trigger] weight_fn.requires((d,)),
        forall|l: Vec<(F64, F64)>| #[trigger] average.requires((l,)),
    ensures
        weighted_outcome(
            r,
            source_grid@,
            output_shape,
            info@,
            fill_value,
            missing_policy,
            *weight_fn,
            *average,
        ),
{
    sample_weighted_from_neighbour_info(
        &source_grid,
        output_shape,
        info,
        fill_value,
        missing_policy,
        weight_fn,
        average,
    )
}

/// The Gaussian weight of a distance. `bell` computes it where the arguments are
/// accepted.
pub fn gaussian_weight<B: Fn(F64, F64) -> F64>(distance: F64, sigma: F64, bell: &B) -> (r: Result<
    F64,
>)
    requires
        forall|d: F64, s: F64| #[trigger] bell.requires((d, s)),
    ensures
        !distance.finite() || distance.less(F64 { bits: 0 }) ==> is_invalid(
            r,
            "gaussian distance must be finite and non-negative"@,
        ),
        distance.finite() && !distance.less(F64 { bits: 0 }) && (!sigma.finite() || sigma.at_most(
            F64 { bits: 0 },
        )) ==> is_invalid(r, "gaussian sigma must be finite and positive"@),
        distance.finite() && !distance.less(F64 { bits: 0 }) && sigma.finite() && !sigma.at_most(
            F64 { bits: 0 },
        ) ==> r is Ok && bell.ensures((distance, sigma), r->Ok_0),
{
    if !distance.is_finite() || distance.lt(F64 { bits: 0 }) {
        return Err(
            RustySatError::invalid_input("gaussian distance must be finite and non-negative"),
        );
    }
    if !sigma.is_finite() || sigma.le(F64 { bits: 0 }) {
        return Err(RustySatError::invalid_input("gaussian sigma must be finite and positive"));
    }
    Ok(bell(distance, sigma))
}

/// Whether `list` holds the places of the flags that are set, in their order.
pub open spec fn lists_set(list: Seq<int>, flags: Seq<bool>) -> bool {
    selects(list, list, flags.len() as int, |i: int| flags[i], |i: int| i)
}

proof fn lemma_first_set_listed(flags: Seq<bool>, n: int) -> (list: Seq<int>)
    requires
        0 <= n <= flags.len() <= usize::MAX,
    ensures
        selects(list, list, n, |i: int| flags[i], |i: int| i),
        list.len() == count_set(flags.take(n)),
        set_positions(flags.take(n)).len() == list.len(),
        forall|j: int| 0 <= j < list.len() ==> #[trigger] list[j] == set_positions(flags.take(n))[j],
        forall|j: int|
            0 <= j < list.len() ==> count_set(flags.take(#[trigger] list[j] + 1)) == j + 1,
    decreases n,
{
    let taken = |i: int| flags[i];
    let same = |i: int| i;
    if n == 0 {
        assert(flags.take(0) =~= Seq::<bool>::empty());
        Seq::empty()
    } else {
        let before = lemma_first_set_listed(flags, n - 1);
        lemma_selects_next(before, before, n - 1, taken, same);
        assert(flags.take(n).drop_last() =~= flags.take(n - 1));
        assert(flags.take(n).last() == flags[n - 1]);
        if taken(n - 1) {
            before.push(n - 1)
        } else {
            before
        }
    }
}

/// The places of the flags that are set, and how many are set up to each.
pub proof fn lemma_set_listed(flags: Seq<bool>) -> (list: Seq<int>)
    requires
        flags.len() <= usize::MAX,
    ensures
        lists_set(list, flags),
        list.len() == count_set(flags),
        forall|j: int| 0 <= j < list.len() ==> #[trigger] list[j] == set_positions(flags)[j],
        forall|j: int|
            0 <= j < list.len() ==> count_set(flags.take(#[trigger] list[j] + 1)) == j + 1,
{
    assert(flags.take(flags.len() as int) =~= flags);
    lemma_first_set_listed(flags, flags.len() as int)
}

/// Whether an entry of a neighbour table names a valid source pixel: its number is one of the
/// `count` valid ones, and its distance is finite.
pub open spec fn names_source(v: NeighbourView, entry: int, count: int) -> bool {
    v.index[entry] < count && v.distance[entry].finite()
}

/// Whether a target pixel is without a value: it has the fill value, and is masked where the
/// policy says so.
pub open spec fn is_blank(
    out: ArrayView<F64>,
    o: int,
    fill: F64,
    policy: SampleMissingPolicy,
) -> bool {
    &&& out.values[o] == fill
    &&& (out.mask is Some && out.mask->Some_0[o]) == (policy is Mask)
}

/// Whether a target pixel shows what the source pixel shows that an entry names among the valid
/// ones, or is blank where it names none.
pub open spec fn shows_entry(
    out: ArrayView<F64>,
    o: int,
    a: ArrayView<F64>,
    v: NeighbourView,
    entry: int,
    sources: Seq<int>,
    fill: F64,
    policy: SampleMissingPolicy,
) -> bool {
    if names_source(v, entry, sources.len() as int) {
        let i = sources[v.index[entry] as int];
        &&& out.values[o] == a.values[i]
        &&& (out.mask is Some && out.mask->Some_0[o]) == (a.mask is Some && a.mask->Some_0[i])
    } else {
        is_blank(out, o, fill, policy)
    }
}

/// Nearest neighbour sampling: the `j`th valid target pixel shows what the source pixel shows
/// that its entry names among the valid ones; without such a pixel, and where a target pixel is
/// not valid, it is blank.
pub proof fn lemma_nearest_sampled(
    r: Result<DataGrid>,
    a: ArrayView<F64>,
    shape: (usize, usize),
    v: NeighbourView,
    fill: F64,
    policy: SampleMissingPolicy,
) -> (out: (Seq<int>, Seq<int>))
    requires
        nearest_outcome(r, a, shape, v, fill, policy),
        neighbours_ok(v),
        array_ok(a),
        r is Ok,
    ensures
        v.neighbours == 1,
        a.values.len() == v.source_size,
        r->Ok_0@.shape == seq![shape.0, shape.1],
        r->Ok_0@.values.len() == shape.0 * shape.1,
        v.target_size == shape.0 * shape.1,
        lists_set(out.0, v.valid_output),
        lists_set(out.1, v.valid_input),
        forall|o: int|
            0 <= o < v.target_size && !#[trigger] v.valid_output[o] ==> is_blank(
                r->Ok_0@,
                o,
                fill,
                policy,
            ),
        forall|j: int|
            0 <= j < out.0.len() ==> shows_entry(
                r->Ok_0@,
                #[trigger] out.0[j],
                a,
                v,
                j,
                out.1,
                fill,
                policy,
            ),
{
    let targets = lemma_set_listed(v.valid_output);
    let sources = lemma_set_listed(v.valid_input);
    let out = r->Ok_0@;
    if exists|o: int| 0 <= o < v.target_size && #[trigger] lookup(v, o) is Bad {
        let o = choose|o: int| 0 <= o < v.target_size && #[trigger] lookup(v, o) is Bad;
        let first = lemma_has_first_bad(v, o);
        assert(first_bad(v, first));
    }
    let flags = Seq::new(v.target_size as nat, |o: int| nearest_flag(a, v, policy, o));
    assert forall|o: int| 0 <= o < v.target_size implies (out.mask is Some
        && #[trigger] out.mask->Some_0[o]) == flags[o] && out.values[o] == nearest_value(
        a,
        v,
        fill,
        o,
    ) by {
        if flags[o] {
            assert(any_set(flags));
        }
    }
    assert forall|o: int| 0 <= o < v.target_size && !#[trigger] v.valid_output[o] implies is_blank(
        out,
        o,
        fill,
        policy,
    ) by {
        assert(lookup(v, o) is Missing);
        assert((out.mask is Some && out.mask->Some_0[o]) == flags[o]);
    }
    assert forall|j: int| 0 <= j < targets.len() implies shows_entry(
        out,
        #[trigger] targets[j],
        a,
        v,
        j,
        sources,
        fill,
        policy,
    ) by {
        let o = targets[j];
        assert(v.valid_output[o]);
        assert((out.mask is Some && out.mask->Some_0[o]) == flags[o]);
        assert(valid_up_to(v, o) == j + 1);
        assert(!(lookup(v, o) is Bad));
        assert((valid_up_to(v, o) - 1) * v.neighbours + 0 == j);
        if names_source(v, j, sources.len() as int) {
            assert(v.valid_input[sources[v.index[j] as int]]);
        }
    }
    (targets, sources)
}

proof fn lemma_has_first_bad(v: NeighbourView, o: int) -> (first: int)
    requires
        0 <= o < v.target_size,
        lookup(v, o) is Bad,
    ensures
        first_bad(v, first),
    decreases o,
{
    if exists|p: int| 0 <= p < o && #[trigger] lookup(v, p) is Bad {
        let p = choose|p: int| 0 <= p < o && #[trigger] lookup(v, p) is Bad;
        lemma_has_first_bad(v, p)
    } else {
        o
    }
}

/// Whether a source pixel takes part in a weighted mean: it shows a value, which is not the
/// fill value.
pub open spec fn takes_part(a: ArrayView<F64>, i: int, fill: F64) -> bool {
    has_value(a, i) && !(fill.finite() && a.values[i].rank() == fill.rank())
}

/// Whether `list` are the values and weights of the neighbours of a target pixel: of exactly
/// those of its `v.neighbours` entries from `from` on that name a source pixel which takes part
/// and whose weight is finite and greater than zero, in the order of the entries. `sources` are
/// the valid source pixels, `weights` the weights of the entries.
pub open spec fn weighs_neighbours<W: Fn(F64) -> F64>(
    list: Seq<(F64, F64)>,
    chosen: Seq<int>,
    weights: Seq<F64>,
    a: ArrayView<F64>,
    v: NeighbourView,
    sources: Seq<int>,
    from: int,
    n: int,
    fill: F64,
    weight: W,
) -> bool {
    &&& weights.len() == n
    &&& forall|k: int|
        #![trigger weights[k]]
        0 <= k < n && names_source(v, from + k, sources.len() as int) && takes_part(
            a,
            sources[v.index[from + k] as int],
            fill,
        ) ==> weight.ensures((v.distance[from + k],), weights[k])
    &&& selects(
        list,
        chosen,
        n,
        |k: int|
            names_source(v, from + k, sources.len() as int) && takes_part(
                a,
                sources[v.index[from + k] as int],
                fill,
            ) && weights[k].finite() && weights[k].rank() > 0,
        |k: int| (a.values[sources[v.index[from + k] as int]], weights[k]),
    )
}

proof fn lemma_weighs_neighbours<W: Fn(F64) -> F64>(
    list: Seq<(F64, F64)>,
    a: ArrayView<F64>,
    v: NeighbourView,
    sources: Seq<int>,
    fill: F64,
    weight: W,
    output: int,
    from: int,
    n: nat,
) -> (out: (Seq<int>, Seq<F64>))
    requires
        neighbours_ok(v),
        array_ok(a),
        a.values.len() == v.source_size,
        lists_set(sources, v.valid_input),
        sources.len() == count_set(v.valid_input),
        forall|j: int|
            0 <= j < sources.len() ==> #[trigger] sources[j] == set_positions(v.valid_input)[j],
        n <= v.neighbours,
        from == (valid_up_to(v, output) - 1) * v.neighbours,
        forall|j: int| 0 <= j < v.neighbours ==> !#[trigger] bad_neighbour(v, output, j),
        weighs(list, a, v, fill, weight, output, n),
    ensures
        weighs_neighbours(list, out.0, out.1, a, v, sources, from, n as int, fill, weight),
    decreases n,
{
    if n == 0 {
        (Seq::empty(), Seq::empty())
    } else {
        let t = n - 1;
        assert(!bad_neighbour(v, output, t));
        let part = match neighbour_at(v, output, t) {
            None => false,
            Some(m) => !left_out(a, fill, source_of(v, m)),
        };
        let i = sources[v.index[from + t] as int];
        let named = names_source(v, from + t, sources.len() as int);
        assert(named ==> neighbour_at(v, output, t) is Some);
        assert(neighbour_at(v, output, t) is Some ==> named && source_of(
            v,
            neighbour_at(v, output, t)->Some_0,
        ) == i);
        if named {
            assert(v.valid_input[i]);
        }
        let w = choose|w: F64| #[trigger]
            weight.ensures((v.distance[from + t],), w) && if usable_weight(w) {
                &&& list.len() > 0
                &&& list.last() == (a.values[i], w)
                &&& weighs(list.drop_last(), a, v, fill, weight, output, t as nat)
            } else {
                weighs(list, a, v, fill, weight, output, t as nat)
            };
        let used = part && usable_weight(w);
        let rest = if used {
            list.drop_last()
        } else {
            list
        };
        let (before, lesser) = lemma_weighs_neighbours(
            rest,
            a,
            v,
            sources,
            fill,
            weight,
            output,
            from,
            t as nat,
        );
        let weights = lesser.push(w);
        let taken = |k: int|
            names_source(v, from + k, sources.len() as int) && takes_part(
                a,
                sources[v.index[from + k] as int],
                fill,
            ) && weights[k].finite() && weights[k].rank() > 0;
        let value = |k: int| (a.values[sources[v.index[from + k] as int]], weights[k]);
        let taken_before = |k: int|
            names_source(v, from + k, sources.len() as int) && takes_part(
                a,
                sources[v.index[from + k] as int],
                fill,
            ) && lesser[k].finite() && lesser[k].rank() > 0;
        assert forall|k: int| 0 <= k < t implies #[trigger] taken(k) == taken_before(k) by {
            assert(weights[k] == lesser[k]);
        }
        assert(selects(rest, before, t, taken, value)) by {
            assert forall|j: int| 0 <= j < before.len() implies 0 <= #[trigger] before[j] < t
                && taken(before[j]) && rest[j] == value(before[j]) by {
                assert(taken_before(before[j]));
                assert(taken(before[j]) == taken_before(before[j]));
                assert(weights[before[j]] == lesser[before[j]]);
            }
            assert forall|i: int| 0 <= i < t && #[trigger] taken(i) implies before.contains(i) by {
                assert(taken_before(i));
            }
        }
        lemma_selects_next(rest, before, t, taken, value);
        assert(weights[t] == w);
        assert(part == (named && takes_part(a, i, fill)));
        assert(taken(t) == used);
        if used {
            assert(list =~= rest.push(value(t)));
            (before.push(t), weights)
        } else {
            (before, weights)
        }
    }
}

/// Weighted sampling: the `j`th valid target pixel has the mean of its neighbours that take part
/// and is not masked; without any, and where a target pixel is not valid, it is blank.
pub proof fn lemma_weighted_sampled<W: Fn(F64) -> F64, A: Fn(Vec<(F64, F64)>) -> F64>(
    r: Result<DataGrid>,
    a: ArrayView<F64>,
    shape: (usize, usize),
    v: NeighbourView,
    fill: F64,
    policy: SampleMissingPolicy,
    weight: W,
    average: A,
    targets: Seq<int>,
    sources: Seq<int>,
    j: int,
) -> (out: (Vec<(F64, F64)>, Seq<int>, Seq<F64>))
    requires
        weighted_outcome(r, a, shape, v, fill, policy, weight, average),
        neighbours_ok(v),
        array_ok(a),
        r is Ok,
        lists_set(targets, v.valid_output),
        lists_set(sources, v.valid_input),
        0 <= j < targets.len(),
    ensures
        r->Ok_0@.shape == seq![shape.0, shape.1],
        r->Ok_0@.values.len() == shape.0 * shape.1,
        weighs_neighbours(
            out.0@,
            out.1,
            out.2,
            a,
            v,
            sources,
            j * v.neighbours,
            v.neighbours as int,
            fill,
            weight,
        ),
        if out.0@.len() == 0 {
            is_blank(r->Ok_0@, targets[j], fill, policy)
        } else {
            average.ensures((out.0,), r->Ok_0@.values[targets[j]]) && !(r->Ok_0@.mask is Some
                && r->Ok_0@.mask->Some_0[targets[j]])
        },
        forall|o: int|
            0 <= o < v.target_size && !#[trigger] v.valid_output[o] ==> is_blank(
                r->Ok_0@,
                o,
                fill,
                policy,
            ),
{
    let all = lemma_set_listed(v.valid_output);
    let every = lemma_set_listed(v.valid_input);
    lemma_lists_same(targets, all, v.valid_output);
    lemma_lists_same(sources, every, v.valid_input);
    let out = r->Ok_0@;
    let flags = choose|flags: Seq<bool>|
        out == #[trigger] plane_view(shape.0, shape.1, out.values, flags) && out.values.len()
            == v.target_size && flags.len() == v.target_size && forall|o: int|
            0 <= o < v.target_size ==> weighted_pixel(
                #[trigger] out.values[o],
                flags[o],
                a,
                v,
                fill,
                policy,
                weight,
                average,
                o,
            );
    assert forall|o: int| 0 <= o < v.target_size implies (out.mask is Some
        && #[trigger] out.mask->Some_0[o]) == flags[o] by {
        if flags[o] {
            assert(any_set(flags));
        }
    }
    assert forall|o: int| 0 <= o < v.target_size && !#[trigger] v.valid_output[o] implies is_blank(
        out,
        o,
        fill,
        policy,
    ) by {
        assert(weighted_pixel(
            out.values[o],
            flags[o],
            a,
            v,
            fill,
            policy,
            weight,
            average,
            o,
        ));
        assert((out.mask is Some && out.mask->Some_0[o]) == flags[o]);
    }
    let o = targets[j];
    assert(v.valid_output[o]);
    assert(valid_up_to(v, o) == j + 1);
    assert((out.mask is Some && out.mask->Some_0[o]) == flags[o]);
    assert(weighted_pixel(out.values[o], flags[o], a, v, fill, policy, weight, average, o));
    let list = choose|list: Vec<(F64, F64)>| #[trigger]
        weighs(list@, a, v, fill, weight, o, v.neighbours as nat) && if list@.len() == 0 {
            out.values[o] == fill && flags[o] == (policy is Mask)
        } else {
            average.ensures((list,), out.values[o]) && !flags[o]
        };
    assert forall|k: int| 0 <= k < v.neighbours implies !#[trigger] bad_neighbour(v, o, k) by {
        assert(good_before(v, v.target_size as int, 0));
    }
    let (chosen, weights) = lemma_weighs_neighbours(
        list@,
        a,
        v,
        sources,
        fill,
        weight,
        o,
        j * v.neighbours,
        v.neighbours as nat,
    );
    (list, chosen, weights)
}

/// The places of the flags that are set are one list.
pub proof fn lemma_lists_same(a: Seq<int>, b: Seq<int>, flags: Seq<bool>)
    requires
        lists_set(a, flags),
        lists_set(b, flags),
    ensures
        a == b,
{
    let taken = |i: int| flags[i];
    let same = |i: int| i;
    lemma_selects_same(a, b, a, b, flags.len() as int, taken, taken, same, same);
}

} // verus!
