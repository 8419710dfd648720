//! A tree of points in the plane that finds the nearest one.

use crate::array::copy_values;
use crate::error::{is_invalid, Result, RustySatError};
use crate::number::F64;
use crate::selection::{lemma_selects_next, selects};
use crate::text::{decimal, join4, size_text};
use vstd::prelude::*;
use vstd::seq_lib::{lemma_multiset_commutative, to_multiset_build};

verus! {

/// A point of the plane with a number by which it is known.
#[derive(Clone, Copy, Debug, PartialEq)]
pub struct Point2D {
    index: usize,
    x: F64,
    y: F64,
}

impl Point2D {
    pub closed spec fn number(self) -> usize {
        self.index
    }

    pub closed spec fn px(self) -> F64 {
        self.x
    }

    pub closed spec fn py(self) -> F64 {
        self.y
    }

    /// Both coordinates are finite.
    pub open spec fn ok(self) -> bool {
        self.px().finite() && self.py().finite()
    }

    #[verifier::type_invariant]
    spec fn inv(self) -> bool {
        self.x.finite() && self.y.finite()
    }

    pub fn new(index: usize, x: F64, y: F64) -> (r: Result<Self>)
        ensures
            !(x.finite() && y.finite()) ==> is_invalid(
                r,
                "spatial index points must have finite coordinates"@,
            ),
            x.finite() && y.finite() ==> r is Ok,
            r is Ok ==> r->Ok_0.number() == index && r->Ok_0.px() == x && r->Ok_0.py() == y
                && r->Ok_0.ok(),
    {
        if !x.is_finite() || !y.is_finite() {
            return Err(
                RustySatError::invalid_input("spatial index points must have finite coordinates"),
            );
        }
        Ok(Point2D { index, x, y })
    }

    pub fn index(&self) -> (r: usize)
        ensures
            r == self.number(),
    {
        self.index
    }

    pub fn x(&self) -> (r: F64)
        ensures
            r == self.px(),
            r.finite(),
    {
        proof {
            use_type_invariant(*self);
        }
        self.x
    }

    pub fn y(&self) -> (r: F64)
        ensures
            r == self.py(),
            r.finite(),
    {
        proof {
            use_type_invariant(*self);
        }
        self.y
    }
}

/// The nearest point: its number and its distance.
#[derive(Clone, Copy, Debug, PartialEq)]
pub struct NearestPoint {
    pub index: usize,
    pub distance: F64,
}

impl NearestPoint {
    pub fn index(&self) -> (r: usize)
        ensures
            r == self.index,
    {
        self.index
    }

    pub fn distance(&self) -> (r: F64)
        ensures
            r == self.distance,
    {
        self.distance
    }
}

/// The axis along which a node of the tree divides the plane.
#[derive(Clone, Copy, Debug, PartialEq, Eq, Structural)]
pub enum Axis {
    X,
    Y,
}

impl Axis {
    /// The axis of the nodes at a depth: they alternate.
    pub open spec fn at_depth(depth: nat) -> Axis {
        if depth % 2 == 0 {
            Axis::X
        } else {
            Axis::Y
        }
    }

    /// The coordinate of a point along the axis.
    pub open spec fn of(self, p: Point2D) -> F64 {
        match self {
            Axis::X => p.px(),
            Axis::Y => p.py(),
        }
    }

    pub fn for_depth(depth: usize) -> (r: Axis)
        ensures
            r == Axis::at_depth(depth as nat),
    {
        if depth % 2 == 0 {
            Axis::X
        } else {
            Axis::Y
        }
    }

    pub fn value(self, point: Point2D) -> (r: F64)
        ensures
            r == self.of(point),
            r.finite(),
    {
        match self {
            Axis::X => point.x(),
            Axis::Y => point.y(),
        }
    }

    pub fn query_value(self, x: F64, y: F64) -> (r: F64)
        ensures
            r == match self {
                Axis::X => x,
                Axis::Y => y,
            },
    {
        match self {
            Axis::X => x,
            Axis::Y => y,
        }
    }
}

/// Whether `a` comes no later than `b` along the axis: by the coordinate, then by the
/// number.
pub open spec fn in_order(axis: Axis, a: Point2D, b: Point2D) -> bool {
    let ra = axis.of(a).total_rank();
    let rb = axis.of(b).total_rank();
    ra < rb || (ra == rb && a.number() <= b.number())
}

pub open spec fn ordered(axis: Axis, points: Seq<Point2D>) -> bool {
    forall|i: int, j: int|
        0 <= i < j < points.len() ==> in_order(axis, #[trigger] points[i], #[trigger] points[j])
}

fn comes_first(axis: Axis, a: Point2D, b: Point2D) -> (r: bool)
    ensures
        r == in_order(axis, a, b),
{
    let va = axis.value(a);
    let vb = axis.value(b);
    if va.totally_before(vb) {
        true
    } else if vb.totally_before(va) {
        false
    } else {
        a.index <= b.index
    }
}

fn copy_points(points: &Vec<Point2D>, from: usize, to: usize) -> (r: Vec<Point2D>)
    requires
        from <= to <= points@.len(),
    ensures
        r@ == points@.subrange(from as int, to as int),
{
    let mut out: Vec<Point2D> = Vec::new();
    let mut i: usize = from;
    while i < to
        invariant
            from <= i <= to <= points@.len(),
            out@ == points@.subrange(from as int, i as int),
        decreases to - i,
    {
        out.push(points[i]);
        assert(points@.subrange(from as int, i + 1) =~= points@.subrange(from as int, i as int).push(
            points@[i as int],
        ));
        i = i + 1;
    }
    out
}

fn merge_points(a: &Vec<Point2D>, b: &Vec<Point2D>, axis: Axis) -> (r: Vec<Point2D>)
    requires
        ordered(axis, a@),
        ordered(axis, b@),
    ensures
        ordered(axis, r@),
        r@.to_multiset() == a@.to_multiset().add(b@.to_multiset()),
        r@.len() == a@.len() + b@.len(),
{
    let _total: usize = a.len();
    let mut out: Vec<Point2D> = Vec::new();
    let mut i: usize = 0;
    let mut j: usize = 0;
    proof {
        assert(a@.take(0) =~= Seq::empty());
        assert(b@.take(0) =~= Seq::empty());
        assert(out@ =~= Seq::empty());
        assert(Seq::<Point2D>::empty().to_multiset().add(Seq::<Point2D>::empty().to_multiset())
            =~= Seq::<Point2D>::empty().to_multiset()) by {
            broadcast use vstd::seq_lib::group_to_multiset_ensures;

            assert(Seq::<Point2D>::empty().to_multiset().len() == 0);
        }
    }
    while i < a.len() || j < b.len()
        invariant
            i <= a@.len(),
            j <= b@.len(),
            ordered(axis, a@),
            ordered(axis, b@),
            ordered(axis, out@),
            out@.len() == i + j,
            out@.to_multiset() == a@.take(i as int).to_multiset().add(
                b@.take(j as int).to_multiset(),
            ),
            forall|p: int, q: int|
                0 <= p < out@.len() && i <= q < a@.len() ==> in_order(
                    axis,
                    #[trigger] out@[p],
                    #[trigger] a@[q],
                ),
            forall|p: int, q: int|
                0 <= p < out@.len() && j <= q < b@.len() ==> in_order(
                    axis,
                    #[trigger] out@[p],
                    #[trigger] b@[q],
                ),
        decreases a@.len() - i + b@.len() - j,
    {
        let take_a = if i == a.len() {
            false
        } else if j == b.len() {
            true
        } else {
            comes_first(axis, a[i], b[j])
        };
        let ghost before = out@;
        if take_a {
            let p = a[i];
            out.push(p);
            proof {
                assert(a@.take(i + 1) =~= a@.take(i as int).push(p));
                to_multiset_build(a@.take(i as int), p);
                to_multiset_build(before, p);
                assert(out@.to_multiset() =~= a@.take(i + 1).to_multiset().add(
                    b@.take(j as int).to_multiset(),
                ));
            }
            i = i + 1;
        } else {
            let p = b[j];
            out.push(p);
            proof {
                assert(b@.take(j + 1) =~= b@.take(j as int).push(p));
                to_multiset_build(b@.take(j as int), p);
                to_multiset_build(before, p);
                assert(out@.to_multiset() =~= a@.take(i as int).to_multiset().add(
                    b@.take(j + 1).to_multiset(),
                ));
            }
            j = j + 1;
        }
    }
    assert(a@.take(a@.len() as int) =~= a@);
    assert(b@.take(b@.len() as int) =~= b@);
    out
}

/// The points in the order of an axis.
pub fn sort_points(points: Vec<Point2D>, axis: Axis) -> (r: Vec<Point2D>)
    ensures
        ordered(axis, r@),
        r@.to_multiset() == points@.to_multiset(),
        r@.len() == points@.len(),
    decreases points@.len(),
{
    let n: usize = points.len();
    if n <= 1 {
        return points;
    }
    let half: usize = n / 2;
    let left = copy_points(&points, 0, half);
    let right = copy_points(&points, half, n);
    proof {
        assert(points@ =~= left@ + right@);
        lemma_multiset_commutative(left@, right@);
    }
    let left = sort_points(left, axis);
    let right = sort_points(right, axis);
    merge_points(&left, &right, axis)
}

/// A node: its point, the axis that it divides, and its two parts.
#[derive(Clone, Copy, Debug, PartialEq)]
pub struct KdNode {
    pub point: Point2D,
    pub axis: Axis,
    pub left: Option<usize>,
    pub right: Option<usize>,
}

/// Whether `p` lies at or before the point of the node along its axis.
pub open spec fn at_or_before(node: KdNode, p: Point2D) -> bool {
    node.axis.of(p).total_rank() <= node.axis.of(node.point).total_rank()
}

/// Whether `p` lies at or behind the point of the node along its axis.
pub open spec fn at_or_behind(node: KdNode, p: Point2D) -> bool {
    node.axis.of(node.point).total_rank() <= node.axis.of(p).total_rank()
}

/// Where the right part of the tree in `lo..hi` begins.
pub open spec fn right_start(nodes: Seq<KdNode>, lo: int, hi: int) -> int {
    match nodes[lo].right {
        Some(r) => r as int,
        None => hi,
    }
}

/// Whether the nodes `lo..hi` are a tree: the root first, then the points at or before
/// it, then those at or behind it, each part a tree again.
pub open spec fn is_tree(nodes: Seq<KdNode>, lo: int, hi: int) -> bool
    decreases hi - lo,
{
    lo == hi || {
        let mid = right_start(nodes, lo, hi);
        &&& 0 <= lo < hi <= nodes.len()
        &&& lo < mid <= hi
        &&& nodes[lo].right is Some ==> mid < hi
        &&& nodes[lo].left == if lo + 1 < mid {
            Some((lo + 1) as usize)
        } else {
            None::<usize>
        }
        &&& lo + 1 < mid ==> (lo + 1) as usize == lo + 1
        &&& forall|j: int| lo < j < mid ==> at_or_before(nodes[lo], #[trigger] nodes[j].point)
        &&& forall|j: int| mid <= j < hi ==> at_or_behind(nodes[lo], #[trigger] nodes[j].point)
        &&& is_tree(nodes, lo + 1, mid)
        &&& is_tree(nodes, mid, hi)
    }
}

/// A tree depends on its own nodes alone.
proof fn lemma_tree_frame(a: Seq<KdNode>, b: Seq<KdNode>, lo: int, hi: int)
    requires
        is_tree(a, lo, hi),
        0 <= lo <= hi <= a.len(),
        hi <= b.len(),
        forall|j: int| lo <= j < hi ==> #[trigger] a[j] == b[j],
    ensures
        is_tree(b, lo, hi),
    decreases hi - lo,
{
    if lo < hi {
        let mid = right_start(a, lo, hi);
        assert(a[lo] == b[lo]);
        lemma_tree_frame(a, b, lo + 1, mid);
        lemma_tree_frame(a, b, mid, hi);
        assert forall|j: int| lo < j < mid implies at_or_before(b[lo], #[trigger] b[j].point) by {
            assert(a[j] == b[j]);
            assert(at_or_before(a[lo], a[j].point));
        }
        assert forall|j: int| mid <= j < hi implies at_or_behind(b[lo], #[trigger] b[j].point) by {
            assert(a[j] == b[j]);
            assert(at_or_behind(a[lo], a[j].point));
        }
    }
}

/// The points of the nodes `lo..hi`.
pub open spec fn points_in(nodes: Seq<KdNode>, lo: int, hi: int) -> Seq<Point2D> {
    Seq::new((hi - lo) as nat, |i: int| nodes[lo + i].point)
}

proof fn lemma_same_points(a: Seq<Point2D>, b: Seq<Point2D>, p: Point2D)
    requires
        a.to_multiset() == b.to_multiset(),
        a.contains(p),
    ensures
        b.contains(p),
{
    broadcast use vstd::seq_lib::group_to_multiset_ensures;

    assert(a.to_multiset().count(p) > 0);
}

/// Builds the tree of the points behind the nodes that are there, and returns its root.
fn build_kd_tree(points: Vec<Point2D>, depth: usize, nodes: &mut Vec<KdNode>) -> (r: Option<usize>)
    requires
        old(nodes)@.len() + points@.len() <= usize::MAX,
        depth + points@.len() <= usize::MAX,
    ensures
        final(nodes)@.len() == old(nodes)@.len() + points@.len(),
        forall|j: int| 0 <= j < old(nodes)@.len() ==> #[trigger] final(nodes)@[j] == old(nodes)@[j],
        is_tree(final(nodes)@, old(nodes)@.len() as int, final(nodes)@.len() as int),
        points_in(
            final(nodes)@,
            old(nodes)@.len() as int,
            final(nodes)@.len() as int,
        ).to_multiset() == points@.to_multiset(),
        r == if points@.len() == 0 {
            None::<usize>
        } else {
            Some(old(nodes)@.len() as usize)
        },
        points@.len() > 0 ==> old(nodes)@.len() as usize == old(nodes)@.len()
            && final(nodes)@[old(nodes)@.len() as int].axis == Axis::at_depth(depth as nat),
        forall|j: int|
            old(nodes)@.len() <= j < final(nodes)@.len() ==> (#[trigger] final(nodes)@[j]).point.ok(),
    decreases points@.len(),
{
    let ghost start = nodes@;
    let ghost all = points@;
    if points.len() == 0 {
        assert(points_in(nodes@, start.len() as int, start.len() as int) =~= points@);
        return None;
    }
    let axis = Axis::for_depth(depth);
    let sorted = sort_points(points, axis);
    let n: usize = sorted.len();
    let median: usize = n / 2;
    let point = sorted[median];
    proof {
        use_type_invariant(point);
    }
    let left_points = copy_points(&sorted, 0, median);
    let right_points = copy_points(&sorted, median + 1, n);
    let node_index: usize = nodes.len();
    nodes.push(KdNode { point, axis, left: None, right: None });
    let ghost lo = node_index as int;
    let ghost left_seq = left_points@;
    let ghost right_seq = right_points@;
    let left = build_kd_tree(left_points, depth + 1, nodes);
    let ghost after_left = nodes@;
    let ghost mid = nodes@.len() as int;
    let right = build_kd_tree(right_points, depth + 1, nodes);
    let ghost before_links = nodes@;
    let ghost hi = nodes@.len() as int;
    nodes.set(node_index, KdNode { point, axis, left, right });
    proof {
        let done = nodes@;
        assert(before_links[lo] == after_left[lo]);
        assert(mid == lo + 1 + median);
        assert(hi == lo + n);
        lemma_tree_frame(after_left, done, lo + 1, mid);
        lemma_tree_frame(before_links, done, mid, hi);
        let left_points = points_in(done, lo + 1, mid);
        let right_points = points_in(done, mid, hi);
        assert(left_points =~= points_in(after_left, lo + 1, mid));
        assert(right_points =~= points_in(before_links, mid, hi));
        assert forall|j: int| lo < j < mid implies at_or_before(done[lo], #[trigger] done[j].point) by {
            assert(left_points[j - lo - 1] == done[j].point);
            assert(left_points.contains(done[j].point));
            lemma_same_points(left_points, left_seq, done[j].point);
            let k = choose|k: int| 0 <= k < left_seq.len() && left_seq[k] == done[j].point;
            assert(sorted@[k] == done[j].point);
            assert(in_order(axis, sorted@[k], sorted@[median as int]));
        }
        assert forall|j: int| mid <= j < hi implies at_or_behind(done[lo], #[trigger] done[j].point) by {
            assert(right_points[j - mid] == done[j].point);
            assert(right_points.contains(done[j].point));
            lemma_same_points(right_points, right_seq, done[j].point);
            let k = choose|k: int| 0 <= k < right_seq.len() && right_seq[k] == done[j].point;
            assert(sorted@[median + 1 + k] == done[j].point);
            assert(in_order(axis, sorted@[median as int], sorted@[median + 1 + k]));
        }
        assert(right_start(done, lo, hi) == mid);
        assert(is_tree(done, lo, hi));
        let whole = points_in(done, lo, hi);
        assert(whole =~= seq![point] + left_points + right_points);
        assert(sorted@ =~= left_seq + seq![point] + right_seq);
        lemma_multiset_commutative(seq![point] + left_points, right_points);
        lemma_multiset_commutative(seq![point], left_points);
        lemma_multiset_commutative(left_seq + seq![point], right_seq);
        lemma_multiset_commutative(left_seq, seq![point]);
        assert(whole.to_multiset() =~= all.to_multiset());
        assert(done.len() == start.len() + all.len());
    }
    Some(node_index)
}

/// Whether `distance` gives `d` for a point and the position `(x, y)`.
pub open spec fn is_distance<D: Fn(F64, F64, F64, F64) -> F64>(
    distance: D,
    p: Point2D,
    x: F64,
    y: F64,
    d: F64,
) -> bool {
    distance.ensures((p.px(), p.py(), x, y), d)
}

/// What the search asks of the measures that it is given. `distance` is a function of
/// its arguments, and a number for finite points. `gap` tells for a coordinate of the
/// query and one of a node on which side the query lies, at or before it or behind it,
/// and a squared distance that no point on the other side undercuts.
pub open spec fn measures_ok<D: Fn(F64, F64, F64, F64) -> F64, G: Fn(F64, F64) -> (bool, F64)>(
    distance: D,
    gap: G,
    x: F64,
    y: F64,
) -> bool {
    &&& forall|px: F64, py: F64| #[trigger] distance.requires((px, py, x, y))
    &&& forall|q: F64, n: F64| #[trigger] gap.requires((q, n))
    &&& forall|px: F64, py: F64, a: F64, b: F64|
        #[trigger] distance.ensures((px, py, x, y), a) && #[trigger] distance.ensures(
            (px, py, x, y),
            b,
        ) ==> a == b
    &&& forall|px: F64, py: F64, d: F64|
        px.finite() && py.finite() && #[trigger] distance.ensures((px, py, x, y), d) ==> !d.nan()
    &&& forall|n: F64, side: (bool, F64), px: F64, py: F64, d: F64|
        #[trigger] gap.ensures((x, n), side) && #[trigger] distance.ensures((px, py, x, y), d)
            && n.finite() && px.finite() && py.finite() && beyond(side.0, n, px) ==> side.1.at_most(
            d,
        )
    &&& forall|n: F64, side: (bool, F64), px: F64, py: F64, d: F64|
        #[trigger] gap.ensures((y, n), side) && #[trigger] distance.ensures((px, py, x, y), d)
            && n.finite() && px.finite() && py.finite() && beyond(side.0, n, py) ==> side.1.at_most(
            d,
        )
}

/// Whether the coordinate `c` lies on the other side of `n` than the query, which is at
/// or before `n` where `before` is set.
pub open spec fn beyond(before: bool, n: F64, c: F64) -> bool {
    if before {
        n.total_rank() <= c.total_rank()
    } else {
        c.total_rank() <= n.total_rank()
    }
}

/// Whether a candidate is at least as good as another: nearer, or as near and with a
/// number that is not greater.
pub open spec fn not_worse(a: (usize, F64), b: (usize, F64)) -> bool {
    a.1.less(b.1) || (a.1.same_number(b.1) && a.0 <= b.0)
}

/// Whether a candidate is one of the nodes `lo..hi` with its distance.
pub open spec fn comes_from<D: Fn(F64, F64, F64, F64) -> F64>(
    nodes: Seq<KdNode>,
    lo: int,
    hi: int,
    distance: D,
    x: F64,
    y: F64,
    c: (usize, F64),
) -> bool {
    exists|j: int|
        lo <= j < hi && (#[trigger] nodes[j]).point.number() == c.0 && is_distance(
            distance,
            nodes[j].point,
            x,
            y,
            c.1,
        )
}

/// Whether no node of `lo..hi` within the limit is better than `best`.
pub open spec fn beats_all<D: Fn(F64, F64, F64, F64) -> F64>(
    nodes: Seq<KdNode>,
    lo: int,
    hi: int,
    distance: D,
    x: F64,
    y: F64,
    max: F64,
    best: Option<(usize, F64)>,
) -> bool {
    forall|j: int, d: F64|
        lo <= j < hi && #[trigger] is_distance(distance, nodes[j].point, x, y, d) && d.at_most(max)
            ==> best is Some && not_worse(best->Some_0, (nodes[j].point.number(), d))
}

/// What a search of the nodes `lo..hi` makes of the best candidate so far.
spec fn searched<D: Fn(F64, F64, F64, F64) -> F64>(
    nodes: Seq<KdNode>,
    lo: int,
    hi: int,
    distance: D,
    x: F64,
    y: F64,
    max: F64,
    before: Option<(usize, F64)>,
    after: Option<(usize, F64)>,
) -> bool {
    &&& after is Some ==> after->Some_0.1.at_most(max)
    &&& after is Some && after != before ==> comes_from(
        nodes,
        lo,
        hi,
        distance,
        x,
        y,
        after->Some_0,
    )
    &&& before is Some ==> after is Some && not_worse(after->Some_0, before->Some_0)
    &&& beats_all(nodes, lo, hi, distance, x, y, max, after)
}

/// Searches of neighbouring ranges, one after the other, are a search of the whole.
proof fn lemma_searched_joined<D: Fn(F64, F64, F64, F64) -> F64>(
    nodes: Seq<KdNode>,
    lo: int,
    mid: int,
    hi: int,
    near_first: bool,
    distance: D,
    x: F64,
    y: F64,
    max: F64,
    best: Option<(usize, F64)>,
    after_own: Option<(usize, F64)>,
    after_near: Option<(usize, F64)>,
    after_far: Option<(usize, F64)>,
)
    requires
        lo < mid <= hi,
        best is Some ==> best->Some_0.1.at_most(max),
        searched(nodes, lo, lo + 1, distance, x, y, max, best, after_own),
        near_first ==> searched(nodes, lo + 1, mid, distance, x, y, max, after_own, after_near)
            && searched(nodes, mid, hi, distance, x, y, max, after_near, after_far),
        !near_first ==> searched(nodes, mid, hi, distance, x, y, max, after_own, after_near)
            && searched(nodes, lo + 1, mid, distance, x, y, max, after_near, after_far),
    ensures
        searched(nodes, lo, hi, distance, x, y, max, best, after_far),
{
    assert forall|j: int, d: F64|
        lo <= j < hi && #[trigger] is_distance(distance, nodes[j].point, x, y, d) && d.at_most(
            max,
        ) implies after_far is Some && not_worse(
        after_far->Some_0,
        (nodes[j].point.number(), d),
    ) by {
        if j == lo {
            assert(after_own is Some && not_worse(
                after_own->Some_0,
                (nodes[j].point.number(), d),
            ));
        } else if (j < mid) == near_first {
            assert(after_near is Some && not_worse(
                after_near->Some_0,
                (nodes[j].point.number(), d),
            ));
        }
    }
    if after_far is Some && after_far != best {
        let c = after_far->Some_0;
        if after_far != after_near {
            let j = if near_first {
                choose|j: int|
                    mid <= j < hi && (#[trigger] nodes[j]).point.number() == c.0 && is_distance(
                        distance,
                        nodes[j].point,
                        x,
                        y,
                        c.1,
                    )
            } else {
                choose|j: int|
                    lo + 1 <= j < mid && (#[trigger] nodes[j]).point.number() == c.0 && is_distance(
                        distance,
                        nodes[j].point,
                        x,
                        y,
                        c.1,
                    )
            };
            assert(nodes[j].point.number() == c.0);
        } else if after_near != after_own {
            let j = if near_first {
                choose|j: int|
                    lo + 1 <= j < mid && (#[trigger] nodes[j]).point.number() == c.0 && is_distance(
                        distance,
                        nodes[j].point,
                        x,
                        y,
                        c.1,
                    )
            } else {
                choose|j: int|
                    mid <= j < hi && (#[trigger] nodes[j]).point.number() == c.0 && is_distance(
                        distance,
                        nodes[j].point,
                        x,
                        y,
                        c.1,
                    )
            };
            assert(nodes[j].point.number() == c.0);
        } else {
            assert(nodes[lo].point.number() == c.0);
        }
    }
}

fn best_is_better(candidate_index: usize, candidate_distance: F64, best: Option<(usize, F64)>) -> (r:
    bool)
    ensures
        r == match best {
            None => true,
            Some(b) => candidate_distance.less(b.1) || (candidate_distance.same_number(b.1)
                && candidate_index < b.0),
        },
{
    match best {
        None => true,
        Some(b) => candidate_distance.lt(b.1) || (candidate_distance.equals(b.1) && candidate_index
            < b.0),
    }
}

/// Searches the tree whose root is `node_index` and improves the best candidate.
fn search<D: Fn(F64, F64, F64, F64) -> F64, G: Fn(F64, F64) -> (bool, F64)>(
    nodes: &Vec<KdNode>,
    node_index: usize,
    Ghost(hi): Ghost<int>,
    x: F64,
    y: F64,
    max: F64,
    best: Option<(usize, F64)>,
    distance: &D,
    gap: &G,
) -> (r: Option<(usize, F64)>)
    requires
        is_tree(nodes@, node_index as int, hi),
        node_index < hi <= nodes@.len(),
        measures_ok(*distance, *gap, x, y),
        forall|j: int| 0 <= j < nodes@.len() ==> (#[trigger] nodes@[j]).point.ok(),
        best is Some ==> best->Some_0.1.at_most(max),
    ensures
        searched(nodes@, node_index as int, hi, *distance, x, y, max, best, r),
    decreases hi - node_index,
{
    let node = nodes[node_index];
    let ghost lo = node_index as int;
    let ghost mid = right_start(nodes@, lo, hi);
    let d = distance(node.point.x(), node.point.y(), x, y);
    assert(is_distance(*distance, node.point, x, y, d));
    let limit = match best {
        Some(b) => b.1,
        None => max,
    };
    let own = node.point.index();
    let after_own: Option<(usize, F64)> = if d.le(limit) && best_is_better(own, d, best) {
        Some((own, d))
    } else {
        best
    };
    assert(searched(nodes@, lo, lo + 1, *distance, x, y, max, best, after_own)) by {
        assert(nodes@[lo].point == node.point);
        assert forall|j: int, e: F64|
            lo <= j < lo + 1 && #[trigger] is_distance(*distance, nodes@[j].point, x, y, e)
                && e.at_most(max) implies after_own is Some && not_worse(
            after_own->Some_0,
            (nodes@[j].point.number(), e),
        ) by {
            assert(distance.ensures((node.point.px(), node.point.py(), x, y), e));
            assert(distance.ensures((node.point.px(), node.point.py(), x, y), d));
        }
    }
    let query = node.axis.query_value(x, y);
    let value = node.axis.value(node.point);
    let side = gap(query, value);
    let ghost near_lo = if side.0 { lo + 1 } else { mid };
    let ghost near_hi = if side.0 { mid } else { hi };
    let ghost far_lo = if side.0 { mid } else { lo + 1 };
    let ghost far_hi = if side.0 { hi } else { mid };
    let (near, far) = if side.0 {
        (node.left, node.right)
    } else {
        (node.right, node.left)
    };
    let after_near: Option<(usize, F64)> = match near {
        Some(child) => search(nodes, child, Ghost(near_hi), x, y, max, after_own, distance, gap),
        None => after_own,
    };
    assert(searched(nodes@, near_lo, near_hi, *distance, x, y, max, after_own, after_near));
    let updated = match after_near {
        Some(b) => b.1,
        None => max,
    };
    let after_far: Option<(usize, F64)> = if side.1.le(updated) {
        match far {
            Some(child) => search(nodes, child, Ghost(far_hi), x, y, max, after_near, distance, gap),
            None => after_near,
        }
    } else {
        after_near
    };
    assert(searched(nodes@, far_lo, far_hi, *distance, x, y, max, after_near, after_far)) by {
        if !side.1.at_most(updated) {
            assert forall|j: int, e: F64|
                far_lo <= j < far_hi && #[trigger] is_distance(
                    *distance,
                    nodes@[j].point,
                    x,
                    y,
                    e,
                ) && e.at_most(max) implies after_far is Some && not_worse(
                after_far->Some_0,
                (nodes@[j].point.number(), e),
            ) by {
                let p = nodes@[j].point;
                assert(nodes@[j].point.ok());
                assert(distance.ensures((p.px(), p.py(), x, y), e));
                assert(gap.ensures((query, value), side));
                assert(beyond(side.0, value, node.axis.of(p)));
                assert(side.1.at_most(e));
            }
        }
    }
    proof {
        lemma_searched_joined(
            nodes@,
            lo,
            mid,
            hi,
            side.0,
            *distance,
            x,
            y,
            max,
            best,
            after_own,
            after_near,
            after_far,
        );
    }
    after_far
}

/// A tree of points that finds the nearest one to a position.
#[derive(Debug, PartialEq)]
pub struct KdPointIndex2D {
    nodes: Vec<KdNode>,
    root: Option<usize>,
    point_count: usize,
}

/// The number and the coordinates of a point.
pub open spec fn parts_of(p: Point2D) -> (usize, F64, F64) {
    (p.number(), p.px(), p.py())
}

/// The numbers and coordinates of the positions below `n` whose coordinates are finite.
pub open spec fn finite_positions(xs: Seq<F64>, ys: Seq<F64>, n: nat) -> Seq<(usize, F64, F64)>
    decreases n,
{
    if n == 0 {
        Seq::empty()
    } else {
        let i = n - 1;
        let before = finite_positions(xs, ys, i as nat);
        if xs[i].finite() && ys[i].finite() {
            before.push((i as usize, xs[i], ys[i]))
        } else {
            before
        }
    }
}

/// The squared radius of a search: unbounded without a radius.
pub open spec fn is_limit<S: Fn(F64) -> F64>(square: S, radius: Option<F64>, max: F64) -> bool {
    match radius {
        Some(r) => square.ensures((r,), max),
        None => max == (F64 { bits: crate::number::INFINITE_64 }),
    }
}

impl Clone for KdPointIndex2D {
    fn clone(&self) -> (r: Self)
        ensures
            r.points() == self.points(),
    {
        proof {
            use_type_invariant(self);
        }
        KdPointIndex2D {
            nodes: copy_values(&self.nodes),
            root: self.root,
            point_count: self.point_count,
        }
    }
}

impl KdPointIndex2D {
    /// The points of the tree.
    pub closed spec fn points(&self) -> Seq<Point2D> {
        points_in(self.nodes@, 0, self.nodes@.len() as int)
    }

    #[verifier::type_invariant]
    spec fn inv(&self) -> bool {
        &&& is_tree(self.nodes@, 0, self.nodes@.len() as int)
        &&& self.point_count == self.nodes@.len()
        &&& self.root == if self.nodes@.len() == 0 {
            None::<usize>
        } else {
            Some(0usize)
        }
        &&& forall|j: int| 0 <= j < self.nodes@.len() ==> (#[trigger] self.nodes@[j]).point.ok()
    }

    /// The tree of the given points.
    pub fn from_points(points: Vec<Point2D>) -> (r: Self)
        ensures
            r.points().to_multiset() == points@.to_multiset(),
            r.points().len() == points@.len(),
    {
        let point_count: usize = points.len();
        let mut nodes: Vec<KdNode> = Vec::new();
        let root = build_kd_tree(points, 0, &mut nodes);
        KdPointIndex2D { nodes, root, point_count }
    }

    /// The tree of the positions with these coordinates. Positions whose coordinates
    /// are not finite are left out.
    pub fn from_xy(xs: &Vec<F64>, ys: &Vec<F64>) -> (r: Result<Self>)
        ensures
            xs@.len() != ys@.len() ==> is_invalid(
                r,
                "x/y coordinate lengths differ: "@ + decimal(xs@.len()) + " != "@ + decimal(
                    ys@.len(),
                ),
            ),
            xs@.len() == ys@.len() ==> r is Ok,
            r is Ok ==> exists|points: Seq<Point2D>|
                points.map_values(|p: Point2D| parts_of(p)) == finite_positions(xs@, ys@, xs@.len())
                    && #[trigger] points.to_multiset() == r->Ok_0.points().to_multiset()
                    && points.len() == r->Ok_0.points().len(),
    {
        if xs.len() != ys.len() {
            let a = size_text(xs.len());
            let b = size_text(ys.len());
            let text = join4("x/y coordinate lengths differ: ", a.as_str(), " != ", b.as_str());
            return Err(RustySatError::invalid_input(text.as_str()));
        }
        let mut points: Vec<Point2D> = Vec::new();
        let mut i: usize = 0;
        assert(points@.map_values(|p: Point2D| parts_of(p)) =~= finite_positions(xs@, ys@, 0));
        while i < xs.len()
            invariant
                i <= xs@.len(),
                xs@.len() == ys@.len(),
                points@.map_values(|p: Point2D| parts_of(p)) == finite_positions(
                    xs@,
                    ys@,
                    i as nat,
                ),
            decreases xs@.len() - i,
        {
            if xs[i].is_finite() && ys[i].is_finite() {
                let ghost before = points@;
                let p = Point2D { index: i, x: xs[i], y: ys[i] };
                points.push(p);
                assert(points@.map_values(|p: Point2D| parts_of(p)) =~= before.map_values(
                    |p: Point2D| parts_of(p),
                ).push(parts_of(p)));
            }
            i = i + 1;
        }
        let ghost all = points@;
        let out = KdPointIndex2D::from_points(points);
        assert(all.to_multiset() == out.points().to_multiset());
        Ok(out)
    }

    /// The number of points.
    pub fn len(&self) -> (r: usize)
        ensures
            r == self.points().len(),
    {
        proof {
            use_type_invariant(self);
        }
        self.point_count
    }

    pub fn is_empty(&self) -> (r: bool)
        ensures
            r == (self.points().len() == 0),
    {
        proof {
            use_type_invariant(self);
        }
        self.point_count == 0
    }

    /// The nearest point to `(x, y)` within a radius; among points at the same distance
    /// the one with the least number. `distance` gives the squared distance of a point
    /// and a position, `gap` compares a coordinate of the position with one of a point,
    /// `square` and `root` square a radius and undo it for a distance.
    pub fn nearest<
        D: Fn(F64, F64, F64, F64) -> F64,
        G: Fn(F64, F64) -> (bool, F64),
        S: Fn(F64) -> F64,
        R: Fn(F64) -> F64,
    >(
        &self,
        x: F64,
        y: F64,
        radius_of_influence: Option<F64>,
        distance: &D,
        gap: &G,
        square: &S,
        root: &R,
    ) -> (r: Result<Option<NearestPoint>>)
        requires
            x.finite() && y.finite() ==> measures_ok(*distance, *gap, x, y),
            forall|v: F64| #[trigger] square.requires((v,)),
            forall|v: F64| #[trigger] root.requires((v,)),
        ensures
            !(x.finite() && y.finite()) ==> is_invalid(
                r,
                "nearest-point query coordinates must be finite"@,
            ),
            x.finite() && y.finite() && radius_of_influence is Some
                && radius_of_influence->Some_0.less(F64 { bits: 0 }) ==> is_invalid(
                r,
                "radius_of_influence must be non-negative"@,
            ),
            x.finite() && y.finite() && !(radius_of_influence is Some
                && radius_of_influence->Some_0.less(F64 { bits: 0 })) ==> r is Ok,
            r is Ok ==> nearest_found(
                self.points(),
                x,
                y,
                radius_of_influence,
                *distance,
                *square,
                *root,
                r->Ok_0,
            ),
    {
        if !x.is_finite() || !y.is_finite() {
            return Err(
                RustySatError::invalid_input("nearest-point query coordinates must be finite"),
            );
        }
        match radius_of_influence {
            Some(radius) => {
                if radius.lt(F64 { bits: 0 }) {
                    return Err(
                        RustySatError::invalid_input("radius_of_influence must be non-negative"),
                    );
                }
            },
            None => {},
        }
        let max = match radius_of_influence {
            Some(radius) => square(radius),
            None => F64 { bits: crate::number::INFINITE_64 },
        };
        proof {
            use_type_invariant(self);
            assert(is_limit(*square, radius_of_influence, max));
        }
        let ghost n = self.nodes@.len() as int;
        let best: Option<(usize, F64)> = match self.root {
            Some(root_index) => search(
                &self.nodes,
                root_index,
                Ghost(n),
                x,
                y,
                max,
                None,
                distance,
                gap,
            ),
            None => None,
        };
        assert(searched(self.nodes@, 0, n, *distance, x, y, max, None, best));
        proof {
            assert forall|j: int| 0 <= j < n implies self.points()[j] == (
            #[trigger] self.nodes@[j]).point by {}
            assert forall|j: int, d: F64|
                0 <= j < self.points().len() && #[trigger] is_distance(
                    *distance,
                    self.points()[j],
                    x,
                    y,
                    d,
                ) && d.at_most(max) implies best is Some && not_worse(
                best->Some_0,
                (self.points()[j].number(), d),
            ) by {
                assert(is_distance(*distance, self.nodes@[j].point, x, y, d));
            }
        }
        match best {
            Some(b) => {
                let found = NearestPoint { index: b.0, distance: root(b.1) };
                proof {
                    let j = choose|j: int|
                        0 <= j < n && (#[trigger] self.nodes@[j]).point.number() == b.0
                            && is_distance(*distance, self.nodes@[j].point, x, y, b.1);
                    assert(self.points()[j] == self.nodes@[j].point);
                    assert(is_nearest(self.points(), j, b.1, x, y, max, *distance));
                }
                Ok(Some(found))
            },
            None => Ok(None),
        }
    }
}

/// Whether the point `j` has the distance `d`, lies within the limit, and no point is
/// better.
pub open spec fn is_nearest<D: Fn(F64, F64, F64, F64) -> F64>(
    points: Seq<Point2D>,
    j: int,
    d: F64,
    x: F64,
    y: F64,
    max: F64,
    distance: D,
) -> bool {
    &&& 0 <= j < points.len()
    &&& is_distance(distance, points[j], x, y, d)
    &&& d.at_most(max)
    &&& forall|k: int, e: F64|
        0 <= k < points.len() && #[trigger] is_distance(distance, points[k], x, y, e) && e.at_most(
            max,
        ) ==> not_worse((points[j].number(), d), (points[k].number(), e))
}

/// Whether `found` is the nearest of the points within the radius, or nothing where no
/// point lies there.
pub open spec fn nearest_found<
    D: Fn(F64, F64, F64, F64) -> F64,
    S: Fn(F64) -> F64,
    R: Fn(F64) -> F64,
>(
    points: Seq<Point2D>,
    x: F64,
    y: F64,
    radius: Option<F64>,
    distance: D,
    square: S,
    root: R,
    found: Option<NearestPoint>,
) -> bool {
    exists|max: F64| #[trigger]
        is_limit(square, radius, max) && match found {
            Some(f) => exists|j: int, d: F64| #[trigger]
                is_nearest(points, j, d, x, y, max, distance) && points[j].number() == f.index
                    && root.ensures((d,), f.distance),
            None => forall|k: int, e: F64|
                0 <= k < points.len() && #[trigger] is_distance(distance, points[k], x, y, e)
                    ==> !e.at_most(max),
        }
}

/// The point that is found is the nearest one within the limit, and of several that are as near
/// the one with the least number; none is found only where no point is within the limit.
pub proof fn lemma_found_is_nearest<
    D: Fn(F64, F64, F64, F64) -> F64,
    S: Fn(F64) -> F64,
    R: Fn(F64) -> F64,
>(
    points: Seq<Point2D>,
    x: F64,
    y: F64,
    radius: Option<F64>,
    distance: D,
    square: S,
    root: R,
    found: Option<NearestPoint>,
) -> (out: (F64, int, F64))
    requires
        nearest_found(points, x, y, radius, distance, square, root, found),
    ensures
        ({
            let (max, j, d) = out;
            &&& radius is Some ==> square.ensures((radius->Some_0,), max)
            &&& radius is None ==> max.bits == crate::number::INFINITE_64
            &&& match found {
                Some(f) => {
                    &&& 0 <= j < points.len()
                    &&& f.index == points[j].number()
                    &&& distance.ensures((points[j].px(), points[j].py(), x, y), d)
                    &&& root.ensures((d,), f.distance)
                    &&& d.at_most(max)
                    &&& forall|k: int, e: F64|
                        0 <= k < points.len() && #[trigger] distance.ensures(
                            (points[k].px(), points[k].py(), x, y),
                            e,
                        ) && e.at_most(max) ==> d.rank() < e.rank() || (d.rank() == e.rank()
                            && points[j].number() <= points[k].number())
                },
                None => forall|k: int, e: F64|
                    0 <= k < points.len() && #[trigger] distance.ensures(
                        (points[k].px(), points[k].py(), x, y),
                        e,
                    ) ==> !e.at_most(max),
            }
        }),
{
    let max = choose|max: F64| #[trigger]
        is_limit(square, radius, max) && match found {
            Some(f) => exists|j: int, d: F64| #[trigger]
                is_nearest(points, j, d, x, y, max, distance) && points[j].number() == f.index
                    && root.ensures((d,), f.distance),
            None => forall|k: int, e: F64|
                0 <= k < points.len() && #[trigger] is_distance(distance, points[k], x, y, e)
                    ==> !e.at_most(max),
        };
    match found {
        Some(f) => {
            let (j, d) = choose|j: int, d: F64| #[trigger]
                is_nearest(points, j, d, x, y, max, distance) && points[j].number() == f.index
                    && root.ensures((d,), f.distance);
            assert forall|k: int, e: F64|
                0 <= k < points.len() && #[trigger] distance.ensures(
                    (points[k].px(), points[k].py(), x, y),
                    e,
                ) && e.at_most(max) implies d.rank() < e.rank() || (d.rank() == e.rank()
                && points[j].number() <= points[k].number()) by {
                assert(is_distance(distance, points[k], x, y, e));
            }
            (max, j, d)
        },
        None => {
            assert forall|k: int, e: F64|
                0 <= k < points.len() && #[trigger] distance.ensures(
                    (points[k].px(), points[k].py(), x, y),
                    e,
                ) implies !e.at_most(max) by {
                assert(is_distance(distance, points[k], x, y, e));
            }
            (max, 0, max)
        },
    }
}

/// The positions of a tree are exactly those with finite coordinates, in their order.
pub proof fn lemma_finite_positions(xs: Seq<F64>, ys: Seq<F64>, n: nat) -> (chosen: Seq<int>)
    requires
        n <= xs.len(),
        n <= usize::MAX,
    ensures
        selects(
            finite_positions(xs, ys, n),
            chosen,
            n as int,
            |i: int| xs[i].finite() && ys[i].finite(),
            |i: int| (i as usize, xs[i], ys[i]),
        ),
    decreases n,
{
    let taken = |i: int| xs[i].finite() && ys[i].finite();
    let value = |i: int| (i as usize, xs[i], ys[i]);
    if n == 0 {
        Seq::empty()
    } else {
        let before = lemma_finite_positions(xs, ys, (n - 1) as nat);
        lemma_selects_next(
            finite_positions(xs, ys, (n - 1) as nat),
            before,
            n - 1,
            taken,
            value,
        );
        if taken(n - 1) {
            before.push(n - 1)
        } else {
            before
        }
    }
}

} // verus!
