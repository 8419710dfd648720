//! A map with text keys, kept in the order of its keys.

use crate::text::{
    lemma_text_less_irreflexive, lemma_text_less_total, lemma_text_less_transitive, owned, same_text,
    text_before, text_less,
};
use vstd::prelude::*;

verus! {

/// A value of which a copy with the same view can be made.
pub trait Duplicate: View + Sized {
    fn duplicate(&self) -> (r: Self)
        ensures
            r@ == self@,
    ;
}

impl Duplicate for String {
    fn duplicate(&self) -> (r: Self) {
        self.clone()
    }
}

/// Whether texts stand in strictly increasing order.
pub open spec fn increasing(keys: Seq<Seq<char>>) -> bool {
    forall|i: int, j: int| 0 <= i < j < keys.len() ==> text_less(#[trigger] keys[i], #[trigger] keys[j])
}

/// A map from text to values. Its keys are walked in increasing order.
#[derive(Debug, PartialEq, Eq)]
pub struct TextMap<V: View> {
    entries: Vec<(String, V)>,
}

impl<V: View> View for TextMap<V> {
    type V = Map<Seq<char>, V::V>;

    closed spec fn view(&self) -> Map<Seq<char>, V::V> {
        Map::new(
            |k: Seq<char>| exists|i: int| self.stands(k, i),
            |k: Seq<char>| self.entries@[self.position(k)].1@,
        )
    }
}

impl<V: View> TextMap<V> {
    /// The keys in increasing order.
    pub closed spec fn keys(&self) -> Seq<Seq<char>> {
        self.entries@.map_values(|e: (String, V)| e.0@)
    }

    /// The keys are in increasing order, and they are the keys of the map.
    #[verifier::type_invariant]
    pub open spec fn inv(&self) -> bool {
        &&& increasing(self.keys())
        &&& self@.dom() == self.keys().to_set()
    }

    /// Whether the entry at `i` has the key `k`.
    spec fn stands(&self, k: Seq<char>, i: int) -> bool {
        0 <= i < self.entries@.len() && self.entries@[i].0@ == k
    }

    /// The position of the entry with the key `k`.
    spec fn position(&self, k: Seq<char>) -> int {
        choose|i: int| self.stands(k, i)
    }

    proof fn lemma_entry(&self, i: int)
        requires
            increasing(self.keys()),
            0 <= i < self.entries@.len(),
        ensures
            self@.dom().contains(self.entries@[i].0@),
            self@[self.entries@[i].0@] == self.entries@[i].1@,
            self.keys()[i] == self.entries@[i].0@,
    {
        let k = self.entries@[i].0@;
        assert(self.stands(k, i));
        let c = self.position(k);
        assert(self.stands(k, c));
        assert(self.keys()[i] == k && self.keys()[c] == k);
        lemma_text_less_irreflexive(k);
    }

    proof fn lemma_domain(&self)
        ensures
            self@.dom() == self.keys().to_set(),
    {
        assert forall|k: Seq<char>| self@.dom().contains(k) == self.keys().to_set().contains(k) by {
            if self@.dom().contains(k) {
                let c = self.position(k);
                assert(self.stands(k, c));
                assert(self.keys()[c] == k);
            }
            if self.keys().to_set().contains(k) {
                let c = choose|j: int| 0 <= j < self.keys().len() && self.keys()[j] == k;
                assert(self.stands(k, c));
            }
        }
        assert(self@.dom() =~= self.keys().to_set());
    }

    /// The empty map.
    pub fn new() -> (r: Self)
        ensures
            r@ == Map::<Seq<char>, V::V>::empty(),
            r.keys() == Seq::<Seq<char>>::empty(),
    {
        let entries: Vec<(String, V)> = Vec::new();
        proof {
            let m = TextMap::<V> { entries: entries };
            m.lemma_domain();
            assert(m.keys() =~= Seq::<Seq<char>>::empty());
            assert(m@ =~= Map::<Seq<char>, V::V>::empty());
        }
        TextMap { entries }
    }

    /// The number of keys.
    pub fn len(&self) -> (r: usize)
        ensures
            r == self.keys().len(),
    {
        self.entries.len()
    }

    pub fn is_empty(&self) -> (r: bool)
        ensures
            r == (self.keys().len() == 0),
    {
        self.entries.len() == 0
    }

    /// The key at a position of the order.
    pub fn key_at(&self, i: usize) -> (r: &String)
        requires
            i < self.keys().len(),
        ensures
            r@ == self.keys()[i as int],
    {
        &self.entries[i].0
    }

    /// The value of the key at a position of the order.
    pub fn value_at(&self, i: usize) -> (r: &V)
        requires
            i < self.keys().len(),
        ensures
            self@.dom().contains(self.keys()[i as int]),
            r@ == self@[self.keys()[i as int]],
    {
        proof {
            use_type_invariant(self);
            self.lemma_entry(i as int);
        }
        &self.entries[i].1
    }

    /// The value of a key.
    pub fn get(&self, key: &str) -> (r: Option<&V>)
        ensures
            r is Some == self@.dom().contains(key@),
            r is Some ==> r->Some_0@ == self@[key@],
    {
        proof {
            use_type_invariant(self);
            self.lemma_domain();
        }
        let mut i: usize = 0;
        while i < self.entries.len()
            invariant
                i <= self.entries@.len(),
                increasing(self.keys()),
                forall|j: int| 0 <= j < i ==> #[trigger] self.entries@[j].0@ != key@,
            decreases self.entries@.len() - i,
        {
            if same_text(self.entries[i].0.as_str(), key) {
                proof {
                    self.lemma_entry(i as int);
                }
                return Some(&self.entries[i].1);
            }
            i = i + 1;
        }
        None
    }

    pub fn contains_key(&self, key: &str) -> (r: bool)
        ensures
            r == self@.dom().contains(key@),
    {
        self.get(key).is_some()
    }

    /// Gives `key` the value `value`, whatever it had before.
    pub fn insert(&mut self, key: String, value: V)
        ensures
            final(self)@ == old(self)@.insert(key@, value@),
    {
        proof {
            use_type_invariant(&*self);
            self.lemma_domain();
        }
        let ghost before = *self;
        let mut entries: Vec<(String, V)> = Vec::new();
        proof {
            let m = TextMap::<V> { entries: entries };
            m.lemma_domain();
        }
        std::mem::swap(&mut entries, &mut self.entries);
        let ghost was = entries@;
        let mut i: usize = 0;
        while i < entries.len() && text_before(entries[i].0.as_str(), key.as_str())
            invariant
                i <= entries@.len(),
                forall|j: int| 0 <= j < i ==> text_less(#[trigger] entries@[j].0@, key@),
            decreases entries@.len() - i,
        {
            i = i + 1;
        }
        let ghost k = key@;
        let ghost v = value@;
        let ghost at = i as int;
        if i < entries.len() && same_text(entries[i].0.as_str(), key.as_str()) {
            entries.set(i, (key, value));
        } else {
            entries.insert(i, (key, value));
        }
        proof {
            let m = TextMap::<V> { entries: entries };
            assert(entries@[at].0@ == k && entries@[at].1@ == v);
            let replaced = at < was.len() && was[at].0@ == k;
            assert forall|a: int, b: int| 0 <= a < b < m.keys().len() implies text_less(
                #[trigger] m.keys()[a],
                #[trigger] m.keys()[b],
            ) by {
                let bk = before.keys();
                if replaced {
                    assert(m.keys()[a] == bk[a] && m.keys()[b] == bk[b]);
                } else {
                    if b < at {
                        assert(m.keys()[a] == bk[a] && m.keys()[b] == bk[b]);
                    } else if a > at {
                        assert(m.keys()[a] == bk[a - 1] && m.keys()[b] == bk[b - 1]);
                    } else {
                        if at < was.len() {
                            lemma_text_less_total(k, was[at].0@);
                        }
                        if a == at {
                            assert(m.keys()[b] == bk[b - 1]);
                            if b - 1 > at {
                                assert(text_less(bk[at], bk[b - 1]));
                                lemma_text_less_transitive(k, bk[at], bk[b - 1]);
                            }
                        } else if b == at {
                            assert(m.keys()[a] == was[a].0@);
                        } else {
                            assert(m.keys()[a] == bk[a] && m.keys()[b] == bk[b - 1]);
                        }
                    }
                }
            }
            m.lemma_domain();
            m.lemma_entry(at);
            assert forall|x: Seq<char>| #[trigger] m@.dom().contains(x) == before@.insert(
                k,
                v,
            ).dom().contains(x) by {
                if m@.dom().contains(x) {
                    let c = m.position(x);
                    assert(m.stands(x, c));
                    if c != at {
                        let d = if replaced || c < at { c } else { c - 1 };
                        assert(before.stands(x, d));
                    }
                }
                if before@.dom().contains(x) {
                    let c = before.position(x);
                    assert(before.stands(x, c));
                    let d = if replaced || c < at { c } else { c + 1 };
                    assert(m.stands(x, d));
                }
            }
            assert forall|x: Seq<char>| before@.insert(k, v).dom().contains(x) implies m@[x]
                == before@.insert(k, v)[x] by {
                if x != k {
                    let c = before.position(x);
                    assert(before.stands(x, c));
                    let d = if replaced || c < at { c } else { c + 1 };
                    assert(entries@[d] == was[c]);
                    m.lemma_entry(d);
                    before.lemma_entry(c);
                }
            }
            assert(m@ =~= before@.insert(k, v));
        }
        self.entries = entries;
    }
}

impl<V: Duplicate> TextMap<V> {
    /// A copy with the same keys and values.
    pub fn copy(&self) -> (r: Self)
        ensures
            r@ == self@,
            r.keys() == self.keys(),
    {
        proof {
            use_type_invariant(self);
        }
        let mut entries: Vec<(String, V)> = Vec::new();
        let mut i: usize = 0;
        while i < self.entries.len()
            invariant
                i <= self.entries@.len(),
                entries@.len() == i,
                forall|j: int| 0 <= j < i ==> #[trigger] entries@[j].0@ == self.entries@[j].0@,
                forall|j: int| 0 <= j < i ==> #[trigger] entries@[j].1@ == self.entries@[j].1@,
            decreases self.entries@.len() - i,
        {
            let key = self.entries[i].0.clone();
            let value = self.entries[i].1.duplicate();
            entries.push((key, value));
            i = i + 1;
        }
        proof {
            let m = TextMap::<V> { entries: entries };
            assert(m.keys() =~= self.keys());
            m.lemma_domain();
            assert forall|k: Seq<char>| self@.dom().contains(k) implies m@[k] == self@[k] by {
                let c = self.position(k);
                assert(self.stands(k, c));
                m.lemma_entry(c);
                self.lemma_entry(c);
            }
            assert(m@ =~= self@);
        }
        TextMap { entries }
    }
}

impl<V: Duplicate> Clone for TextMap<V> {
    fn clone(&self) -> (r: Self)
        ensures
            r@ == self@,
    {
        self.copy()
    }
}

impl<V: Duplicate> TextMap<V> {
    /// A copy without a key.
    pub fn without(&self, key: &str) -> (r: Self)
        ensures
            r@ == self@.remove(key@),
    {
        proof {
            use_type_invariant(self);
        }
        let mut out: TextMap<V> = TextMap::new();
        let n: usize = self.len();
        let ghost keys = self.keys();
        let mut i: usize = 0;
        while i < n
            invariant
                i <= n,
                n == keys.len(),
                keys == self.keys(),
                self@.dom() == keys.to_set(),
                forall|j: int|
                    0 <= j < i && #[trigger] keys[j] != key@ ==> out@.dom().contains(keys[j])
                        && out@[keys[j]] == self@[keys[j]],
                forall|k: Seq<char>| #[trigger]
                    out@.dom().contains(k) ==> k != key@ && self@.dom().contains(k) && out@[k]
                        == self@[k],
            decreases n - i,
        {
            let name = self.key_at(i);
            if !same_text(name.as_str(), key) {
                let value = self.value_at(i).duplicate();
                out.insert(owned(name.as_str()), value);
            }
            i = i + 1;
        }
        proof {
            assert forall|k: Seq<char>| self@.remove(key@).dom().contains(k) implies #[trigger]
            out@.dom().contains(k) && out@[k] == self@[k] by {
                assert(keys.to_set().contains(k));
                let j = choose|j: int| 0 <= j < keys.len() && keys[j] == k;
                assert(keys[j] != key@);
            }
            assert(out@ =~= self@.remove(key@));
        }
        out
    }
}

impl<V: Duplicate> Duplicate for TextMap<V> {
    fn duplicate(&self) -> (r: Self) {
        self.copy()
    }
}

/// The keys of a map in increasing order.
pub open spec fn sorted_keys<V>(m: Map<Seq<char>, V>) -> Seq<Seq<char>> {
    choose|keys: Seq<Seq<char>>| #[trigger] increasing(keys) && keys.to_set() == m.dom()
}

impl<V: View> TextMap<V> {
    /// The keys of a map are those of its view in increasing order.
    pub proof fn lemma_keys_sorted(&self)
        requires
            self.inv(),
        ensures
            self.keys() == sorted_keys(self@),
    {
        let chosen = sorted_keys(self@);
        assert(increasing(self.keys()) && self.keys().to_set() == self@.dom());
        lemma_same_keys(self.keys(), chosen);
    }
}

/// A value that can be told apart from values with another view.
pub trait Comparable: View + Sized {
    fn same(&self, other: &Self) -> (r: bool)
        ensures
            r == (self@ == other@),
    ;
}

impl Comparable for String {
    fn same(&self, other: &Self) -> (r: bool) {
        same_text(self.as_str(), other.as_str())
    }
}

impl<V: Comparable> TextMap<V> {
    /// Whether two maps have the same keys with the same values.
    pub fn same_as(&self, other: &Self) -> (r: bool)
        ensures
            r == (self@ == other@),
    {
        proof {
            use_type_invariant(self);
            use_type_invariant(other);
        }
        if self.entries.len() != other.entries.len() {
            proof {
                if self@ == other@ {
                    lemma_same_keys(self.keys(), other.keys());
                }
            }
            return false;
        }
        let mut i: usize = 0;
        while i < self.entries.len()
            invariant
                i <= self.entries@.len(),
                self.inv(),
                other.inv(),
                self.entries@.len() == other.entries@.len(),
                forall|j: int| 0 <= j < i ==> #[trigger] self.entries@[j].0@ == other.entries@[j].0@,
                forall|j: int| 0 <= j < i ==> #[trigger] self.entries@[j].1@ == other.entries@[j].1@,
            decreases self.entries@.len() - i,
        {
            let same_key = same_text(self.entries[i].0.as_str(), other.entries[i].0.as_str());
            let same_value = self.entries[i].1.same(&other.entries[i].1);
            if !(same_key && same_value) {
                proof {
                    if self@ == other@ {
                        lemma_same_keys(self.keys(), other.keys());
                        self.lemma_entry(i as int);
                        other.lemma_entry(i as int);
                    }
                }
                return false;
            }
            i = i + 1;
        }
        proof {
            assert(self.keys() =~= other.keys());
            assert forall|k: Seq<char>| self@.dom().contains(k) implies self@[k] == other@[k] by {
                let c = self.position(k);
                assert(self.stands(k, c));
                self.lemma_entry(c);
                other.lemma_entry(c);
            }
            assert(self@ =~= other@);
        }
        true
    }
}

/// In an increasing sequence no text stands twice.
pub proof fn lemma_increasing_distinct(keys: Seq<Seq<char>>)
    requires
        increasing(keys),
    ensures
        keys.no_duplicates(),
{
    assert forall|i: int, j: int| 0 <= i < keys.len() && 0 <= j < keys.len() && i != j implies keys[i]
        != keys[j] by {
        lemma_text_less_irreflexive(keys[i]);
        if i < j {
            assert(text_less(keys[i], keys[j]));
        } else {
            assert(text_less(keys[j], keys[i]));
        }
    }
}

/// Two increasing sequences with the same texts are the same.
pub proof fn lemma_same_keys(a: Seq<Seq<char>>, b: Seq<Seq<char>>)
    requires
        increasing(a),
        increasing(b),
        a.to_set() == b.to_set(),
    ensures
        a == b,
    decreases a.len(),
{
    if a.len() == 0 {
        if b.len() > 0 {
            assert(b.to_set().contains(b[0]));
            assert(a.to_set().contains(b[0]));
        }
        assert(a =~= b);
    } else {
        assert(a.to_set().contains(a.last()));
        assert(b.to_set().contains(a.last()));
        let ja = choose|j: int| 0 <= j < b.len() && b[j] == a.last();
        assert(b.to_set().contains(b.last()));
        assert(a.to_set().contains(b.last()));
        let jb = choose|j: int| 0 <= j < a.len() && a[j] == b.last();
        if a.last() != b.last() {
            assert(text_less(b[ja], b.last()));
            assert(text_less(a[jb], a.last()));
            lemma_text_less_transitive(a.last(), b.last(), a.last());
            lemma_text_less_irreflexive(a.last());
        }
        let a1 = a.drop_last();
        let b1 = b.drop_last();
        assert forall|k: Seq<char>| a1.to_set().contains(k) == b1.to_set().contains(k) by {
            if a1.to_set().contains(k) {
                let i = choose|i: int| 0 <= i < a1.len() && a1[i] == k;
                assert(a[i] == k && text_less(a[i], a.last()));
                assert(a.to_set().contains(k));
                assert(b.to_set().contains(k));
                let j = choose|j: int| 0 <= j < b.len() && b[j] == k;
                if j == b.len() - 1 {
                    lemma_text_less_irreflexive(k);
                }
                assert(b1[j] == k);
            }
            if b1.to_set().contains(k) {
                let i = choose|i: int| 0 <= i < b1.len() && b1[i] == k;
                assert(b[i] == k && text_less(b[i], b.last()));
                assert(b.to_set().contains(k));
                assert(a.to_set().contains(k));
                let j = choose|j: int| 0 <= j < a.len() && a[j] == k;
                if j == a.len() - 1 {
                    lemma_text_less_irreflexive(k);
                }
                assert(a1[j] == k);
            }
        }
        assert(a1.to_set() =~= b1.to_set());
        lemma_same_keys(a1, b1);
        assert(a =~= a1.push(a.last()));
        assert(b =~= b1.push(b.last()));
    }
}

/// Keys with one more in its place.
spec fn with_key(keys: Seq<Seq<char>>, k: Seq<char>) -> Seq<Seq<char>>
    decreases keys.len(),
{
    if keys.len() == 0 || text_less(keys.last(), k) {
        keys.push(k)
    } else {
        with_key(keys.drop_last(), k).push(keys.last())
    }
}

proof fn lemma_with_key(keys: Seq<Seq<char>>, k: Seq<char>)
    requires
        increasing(keys),
        !keys.contains(k),
    ensures
        increasing(with_key(keys, k)),
        forall|x: Seq<char>| #[trigger] with_key(keys, k).contains(x) <==> keys.contains(x) || x == k,
    decreases keys.len(),
{
    let r = with_key(keys, k);
    if keys.len() == 0 || text_less(keys.last(), k) {
        assert forall|i: int, j: int| 0 <= i < j < r.len() implies text_less(
            #[trigger] r[i],
            #[trigger] r[j],
        ) by {
            if j == keys.len() && i < keys.len() - 1 {
                lemma_text_less_transitive(keys[i], keys.last(), k);
            }
        }
        assert forall|x: Seq<char>| #[trigger] r.contains(x) <==> keys.contains(x) || x == k by {
            if keys.contains(x) {
                let i = choose|i: int| 0 <= i < keys.len() && keys[i] == x;
                assert(r[i] == x);
            }
            if x == k {
                assert(r[keys.len() as int] == x);
            }
        }
    } else {
        let rest = keys.drop_last();
        let last = keys.last();
        assert forall|x: Seq<char>| rest.contains(x) implies #[trigger] keys.contains(x) by {
            let i = choose|i: int| 0 <= i < rest.len() && rest[i] == x;
            assert(keys[i] == x);
        }
        lemma_with_key(rest, k);
        let before = with_key(rest, k);
        assert(keys[keys.len() - 1] == last);
        lemma_text_less_total(last, k);
        assert forall|i: int, j: int| 0 <= i < j < r.len() implies text_less(
            #[trigger] r[i],
            #[trigger] r[j],
        ) by {
            if j == r.len() - 1 {
                assert(before.contains(before[i]));
                if before[i] != k {
                    let m = choose|m: int| 0 <= m < rest.len() && rest[m] == before[i];
                    assert(text_less(keys[m], keys[keys.len() - 1]));
                }
            }
        }
        assert forall|x: Seq<char>| #[trigger] r.contains(x) <==> keys.contains(x) || x == k by {
            if r.contains(x) {
                let i = choose|i: int| 0 <= i < r.len() && r[i] == x;
                if i < before.len() {
                    assert(before.contains(before[i]));
                }
            }
            if keys.contains(x) || x == k {
                if x == last {
                    assert(r[r.len() - 1] == x);
                } else {
                    if keys.contains(x) {
                        let i = choose|i: int| 0 <= i < keys.len() && keys[i] == x;
                        assert(rest[i] == x);
                    }
                    assert(before.contains(x));
                    let i = choose|i: int| 0 <= i < before.len() && before[i] == x;
                    assert(r[i] == x);
                }
            }
        }
    }
}

proof fn lemma_keys_in_order(names: Set<Seq<char>>)
    requires
        names.finite(),
    ensures
        exists|keys: Seq<Seq<char>>| #[trigger] increasing(keys) && keys.to_set() == names,
    decreases names.len(),
{
    if names.len() == 0 {
        let none = Seq::<Seq<char>>::empty();
        assert(increasing(none) && none.to_set() =~= names);
    } else {
        let k = names.choose();
        lemma_keys_in_order(names.remove(k));
        let keys = choose|keys: Seq<Seq<char>>| #[trigger]
            increasing(keys) && keys.to_set() == names.remove(k);
        assert(!keys.contains(k)) by {
            assert(keys.to_set().contains(k) == keys.contains(k));
        }
        lemma_with_key(keys, k);
        let all = with_key(keys, k);
        assert forall|x: Seq<char>| #[trigger] all.to_set().contains(x) == names.contains(x) by {
            assert(all.contains(x) == (keys.contains(x) || x == k));
            assert(keys.to_set().contains(x) == keys.contains(x));
        }
        assert(all.to_set() =~= names);
    }
}

/// The keys of a finite map have an order.
pub proof fn lemma_sorted_keys<V>(m: Map<Seq<char>, V>)
    requires
        m.dom().finite(),
    ensures
        increasing(sorted_keys(m)),
        sorted_keys(m).to_set() == m.dom(),
        forall|k: Seq<char>| m.contains_key(k) <==> #[trigger] sorted_keys(m).contains(k),
{
    lemma_keys_in_order(m.dom());
    assert forall|k: Seq<char>| m.contains_key(k) <==> #[trigger] sorted_keys(m).contains(k) by {
        assert(sorted_keys(m).to_set().contains(k) == sorted_keys(m).contains(k));
    }
}

} // verus!
