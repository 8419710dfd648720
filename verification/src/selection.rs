//! Parts of a sequence in their order.

use vstd::prelude::*;

verus! {

/// Whether `list` holds the values of exactly those of the first `n` numbers that are taken,
/// in their order: `chosen` are these numbers.
pub open spec fn selects<T>(
    list: Seq<T>,
    chosen: Seq<int>,
    n: int,
    taken: spec_fn(int) -> bool,
    value: spec_fn(int) -> T,
) -> bool {
    &&& chosen.len() == list.len()
    &&& forall|j: int, k: int| 0 <= j < k < chosen.len() ==> chosen[j] < chosen[k]
    &&& forall|j: int|
        0 <= j < chosen.len() ==> 0 <= #[trigger] chosen[j] < n && taken(chosen[j]) && list[j]
            == value(chosen[j])
    &&& forall|i: int| 0 <= i < n && #[trigger] taken(i) ==> chosen.contains(i)
}

/// One number more: it is at the end where it is taken.
pub proof fn lemma_selects_next<T>(
    list: Seq<T>,
    chosen: Seq<int>,
    n: int,
    taken: spec_fn(int) -> bool,
    value: spec_fn(int) -> T,
)
    requires
        n >= 0,
        selects(list, chosen, n, taken, value),
    ensures
        taken(n) ==> selects(list.push(value(n)), chosen.push(n), n + 1, taken, value),
        !taken(n) ==> selects(list, chosen, n + 1, taken, value),
{
    if taken(n) {
        let more = chosen.push(n);
        assert forall|i: int| 0 <= i < n + 1 && #[trigger] taken(i) implies more.contains(i) by {
            if i < n {
                let j = choose|j: int| 0 <= j < chosen.len() && chosen[j] == i;
                assert(more[j] == i);
            } else {
                assert(more[chosen.len() as int] == i);
            }
        }
    }
}

/// A selection by one rule is one by another that takes the same numbers.
pub proof fn lemma_selects_renamed<T>(
    list: Seq<T>,
    chosen: Seq<int>,
    n: int,
    taken: spec_fn(int) -> bool,
    taken_too: spec_fn(int) -> bool,
    value: spec_fn(int) -> T,
)
    requires
        selects(list, chosen, n, taken, value),
        forall|i: int| 0 <= i < n ==> #[trigger] taken_too(i) == taken(i),
    ensures
        selects(list, chosen, n, taken_too, value),
{
    assert forall|j: int| 0 <= j < chosen.len() implies 0 <= #[trigger] chosen[j] < n && taken_too(
        chosen[j],
    ) && list[j] == value(chosen[j]) by {
        assert(taken_too(chosen[j]) == taken(chosen[j]));
    }
}

/// Two selections of the same numbers with the same values are one.
pub proof fn lemma_selects_same<T>(
    a: Seq<T>,
    b: Seq<T>,
    i: Seq<int>,
    j: Seq<int>,
    n: int,
    taken: spec_fn(int) -> bool,
    taken_too: spec_fn(int) -> bool,
    value: spec_fn(int) -> T,
    value_too: spec_fn(int) -> T,
)
    requires
        n >= 0,
        selects(a, i, n, taken, value),
        selects(b, j, n, taken_too, value_too),
        forall|k: int| 0 <= k < n ==> #[trigger] taken(k) == taken_too(k),
        forall|k: int| 0 <= k < n && #[trigger] taken(k) ==> value(k) == value_too(k),
    ensures
        a == b,
    decreases n,
{
    if n == 0 {
        if a.len() > 0 {
            assert(0 <= i[0] < n);
        }
        if b.len() > 0 {
            assert(0 <= j[0] < n);
        }
        assert(a =~= b);
    } else {
        let last = n - 1;
        let (x, p) = cut(a, i, last);
        let (y, q) = cut(b, j, last);
        lemma_cut(a, i, last, taken, value);
        lemma_cut(b, j, last, taken_too, value_too);
        lemma_selects_same(x, y, p, q, last, taken, taken_too, value, value_too);
        assert(taken(last) == taken_too(last));
        if taken(last) {
            assert(a =~= x.push(value(last)));
            assert(b =~= y.push(value_too(last)));
        }
    }
}

/// A selection without a number that can only be its last.
spec fn cut<T>(list: Seq<T>, chosen: Seq<int>, last: int) -> (Seq<T>, Seq<int>) {
    if chosen.len() > 0 && chosen.last() == last {
        (list.drop_last(), chosen.drop_last())
    } else {
        (list, chosen)
    }
}

proof fn lemma_cut<T>(
    list: Seq<T>,
    chosen: Seq<int>,
    last: int,
    taken: spec_fn(int) -> bool,
    value: spec_fn(int) -> T,
)
    requires
        last >= 0,
        selects(list, chosen, last + 1, taken, value),
    ensures
        selects(cut(list, chosen, last).0, cut(list, chosen, last).1, last, taken, value),
        taken(last) ==> list.len() > 0 && list.last() == value(last) && cut(list, chosen, last).0
            == list.drop_last(),
        !taken(last) ==> cut(list, chosen, last).0 == list,
{
    let (x, p) = cut(list, chosen, last);
    if chosen.len() > 0 && chosen.last() == last {
        assert(taken(chosen[chosen.len() - 1]));
        assert forall|i: int| 0 <= i < last && #[trigger] taken(i) implies p.contains(i) by {
            let j = choose|j: int| 0 <= j < chosen.len() && chosen[j] == i;
            assert(p[j] == i);
        }
    } else {
        if taken(last) {
            let j = choose|j: int| 0 <= j < chosen.len() && chosen[j] == last;
            if j < chosen.len() - 1 {
                assert(chosen[j] < chosen[chosen.len() - 1]);
            }
            assert(false);
        }
        assert forall|j: int| 0 <= j < chosen.len() implies #[trigger] chosen[j] < last by {
            assert(taken(chosen[j]));
        }
    }
}

} // verus!
