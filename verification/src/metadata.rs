//! Values that describe data: texts, numbers, lists and tables.

use crate::error::{is_invalid, Result, RustySatError};
use crate::number::F64;
use crate::text::{
    lemma_position_in, lemma_text_less_total, lemma_text_less_transitive, owned, position_in,
    same_text, text_before, text_less,
};
use crate::text_map::{increasing, lemma_increasing_distinct, Duplicate, TextMap};
use crate::widening::is_nearest;
use vstd::prelude::*;

verus! {

/// A value that describes data.
#[derive(Debug, PartialEq)]
pub enum MetadataValue {
    Text(String),
    Integer(i64),
    Float(F64),
    List(Vec<MetadataValue>),
    Table(MetadataTable),
}

/// A value with its name.
#[derive(Clone, Debug, PartialEq)]
pub struct MetadataEntry {
    name: String,
    value: MetadataValue,
}

/// Values by their names, in the order of the names.
#[derive(Debug, PartialEq)]
pub struct MetadataTable {
    entries: Vec<MetadataEntry>,
}

/// A value that describes data, as a mathematical value.
#[verifier::ext_equal]
pub enum MetadataTree {
    Text(Seq<char>),
    Integer(i64),
    Float(F64),
    List(Seq<MetadataTree>),
    Table(Map<Seq<char>, MetadataTree>),
}

/// The names of entries.
spec fn names_in(entries: Seq<MetadataEntry>) -> Seq<Seq<char>> {
    Seq::new(entries.len(), |i: int| entries[i].name@)
}

impl MetadataValue {
    pub closed spec fn tree(self) -> MetadataTree
        decreases self,
    {
        match self {
            MetadataValue::Text(s) => MetadataTree::Text(s@),
            MetadataValue::Integer(n) => MetadataTree::Integer(n),
            MetadataValue::Float(x) => MetadataTree::Float(x),
            MetadataValue::List(v) => MetadataTree::List(
                Seq::new(
                    v@.len(),
                    |i: int|
                        if 0 <= i < v@.len() {
                            v@[i].tree()
                        } else {
                            MetadataTree::Integer(0)
                        },
                ),
            ),
            MetadataValue::Table(m) => MetadataTree::Table(m.map()),
        }
    }
}

impl MetadataTable {
    /// The values by their names.
    pub closed spec fn map(self) -> Map<Seq<char>, MetadataTree>
        decreases self,
    {
        Map::new(
            |k: Seq<char>| names_in(self.entries@).contains(k),
            |k: Seq<char>|
                {
                    let i = position_in(names_in(self.entries@), k) as int;
                    if 0 <= i < self.entries@.len() {
                        self.entries@[i].value.tree()
                    } else {
                        MetadataTree::Integer(0)
                    }
                },
        )
    }

    /// The names stand in increasing order, each once.
    #[verifier::type_invariant]
    pub closed spec fn inv(self) -> bool {
        increasing(names_in(self.entries@))
    }
}

impl View for MetadataValue {
    type V = MetadataTree;

    open spec fn view(&self) -> MetadataTree {
        self.tree()
    }
}

impl View for MetadataTable {
    type V = Map<Seq<char>, MetadataTree>;

    open spec fn view(&self) -> Map<Seq<char>, MetadataTree> {
        self.map()
    }
}

/// The values of a list as mathematical values.
pub open spec fn trees(list: Seq<MetadataValue>) -> Seq<MetadataTree> {
    Seq::new(list.len(), |i: int| list[i]@)
}

/// What a value is as a mathematical value.
pub proof fn lemma_tree(v: MetadataValue)
    ensures
        v@ == match v {
            MetadataValue::Text(s) => MetadataTree::Text(s@),
            MetadataValue::Integer(n) => MetadataTree::Integer(n),
            MetadataValue::Float(x) => MetadataTree::Float(x),
            MetadataValue::List(l) => MetadataTree::List(trees(l@)),
            MetadataValue::Table(m) => MetadataTree::Table(m@),
        },
{
    match v {
        MetadataValue::List(l) => {
            assert(v@->List_0 =~= trees(l@));
        },
        _ => {},
    }
}

/// Names with one more in its place are still in increasing order.
proof fn lemma_placed(
    was: Seq<Seq<char>>,
    now: Seq<Seq<char>>,
    name: Seq<char>,
    at: int,
    replaced: bool,
)
    requires
        increasing(was),
        0 <= at <= was.len(),
        forall|j: int| 0 <= j < at ==> text_less(#[trigger] was[j], name),
        at < was.len() ==> !text_less(was[at], name),
        replaced == (at < was.len() && was[at] == name),
        replaced ==> now == was,
        !replaced ==> now == was.insert(at, name),
    ensures
        increasing(now),
{
    if !replaced {
        assert forall|a: int, b: int| 0 <= a < b < now.len() implies text_less(
            #[trigger] now[a],
            #[trigger] now[b],
        ) by {
            if at < was.len() {
                lemma_text_less_total(name, was[at]);
            }
            if a == at && b - 1 > at {
                assert(text_less(was[at], was[b - 1]));
                lemma_text_less_transitive(name, was[at], was[b - 1]);
            }
        }
    }
}

impl MetadataTable {
    pub fn new() -> (r: Self)
        ensures
            r@ == Map::<Seq<char>, MetadataTree>::empty(),
            r.names() == Seq::<Seq<char>>::empty(),
    {
        let entries: Vec<MetadataEntry> = Vec::new();
        let r = MetadataTable { entries };
        assert(r@ =~= Map::<Seq<char>, MetadataTree>::empty());
        assert(r.names() =~= Seq::<Seq<char>>::empty());
        r
    }

    /// The names in increasing order.
    pub closed spec fn names(&self) -> Seq<Seq<char>> {
        names_in(self.entries@)
    }

    proof fn lemma_at(self, i: int)
        requires
            self.inv(),
            0 <= i < self.entries@.len(),
        ensures
            self@.contains_key(self.entries@[i].name@),
            self@[self.entries@[i].name@] == self.entries@[i].value@,
    {
        let k = self.entries@[i].name@;
        lemma_increasing_distinct(names_in(self.entries@));
        assert(names_in(self.entries@)[i] == k);
        lemma_position_in(names_in(self.entries@), k);
    }

    pub fn len(&self) -> (r: usize)
        ensures
            r == self.names().len(),
            self.names().to_set() == self@.dom(),
            increasing(self.names()),
    {
        proof {
            use_type_invariant(self);
            assert(self.names().to_set() =~= self@.dom());
        }
        self.entries.len()
    }

    pub fn name_at(&self, i: usize) -> (r: &String)
        requires
            i < self.names().len(),
        ensures
            r@ == self.names()[i as int],
    {
        &self.entries[i].name
    }

    pub fn value_at(&self, i: usize) -> (r: &MetadataValue)
        requires
            i < self.names().len(),
        ensures
            self@.contains_key(self.names()[i as int]),
            r@ == self@[self.names()[i as int]],
    {
        proof {
            use_type_invariant(self);
            self.lemma_at(i as int);
        }
        &self.entries[i].value
    }

    fn find(&self, name: &str) -> (r: Option<usize>)
        ensures
            r is Some == self@.contains_key(name@),
            r is Some ==> r->Some_0 < self.entries@.len() && self.entries@[r->Some_0 as int].name@
                == name@,
    {
        let mut i: usize = 0;
        while i < self.entries.len()
            invariant
                i <= self.entries@.len(),
                forall|j: int| 0 <= j < i ==> #[trigger] names_in(self.entries@)[j] != name@,
            decreases self.entries@.len() - i,
        {
            if same_text(self.entries[i].name.as_str(), name) {
                assert(names_in(self.entries@)[i as int] == name@);
                return Some(i);
            }
            i = i + 1;
        }
        None
    }

    /// The value of a name.
    pub fn get(&self, name: &str) -> (r: Option<&MetadataValue>)
        ensures
            r is Some == self@.contains_key(name@),
            r is Some ==> r->Some_0@ == self@[name@],
    {
        proof {
            use_type_invariant(self);
        }
        match self.find(name) {
            Some(i) => {
                proof {
                    self.lemma_at(i as int);
                }
                Some(&self.entries[i].value)
            },
            None => None,
        }
    }

    /// Gives `name` the value `value`, whatever it had before.
    pub fn insert(&mut self, name: &str, value: MetadataValue)
        ensures
            final(self)@ == old(self)@.insert(name@, value@),
    {
        proof {
            use_type_invariant(&*self);
        }
        let ghost before = *self;
        let ghost was = self.entries@;
        let mut entries: Vec<MetadataEntry> = Vec::new();
        std::mem::swap(&mut entries, &mut self.entries);
        let mut i: usize = 0;
        while i < entries.len() && text_before(entries[i].name.as_str(), name)
            invariant
                i <= entries@.len(),
                forall|j: int| 0 <= j < i ==> text_less(#[trigger] names_in(entries@)[j], name@),
            decreases entries@.len() - i,
        {
            assert(names_in(entries@)[i as int] == entries@[i as int].name@);
            i = i + 1;
        }
        let replaced = i < entries.len() && same_text(entries[i].name.as_str(), name);
        let entry = MetadataEntry { name: owned(name), value };
        if replaced {
            entries.set(i, entry);
        } else {
            entries.insert(i, entry);
        }
        proof {
            let at = i as int;
            let after = MetadataTable { entries };
            let want = before@.insert(name@, value@);
            assert(entries@[at] == entry);
            if replaced {
                assert(names_in(entries@) =~= names_in(was));
            } else {
                assert(names_in(entries@) =~= names_in(was).insert(at, name@));
            }
            lemma_placed(names_in(was), names_in(entries@), name@, at, replaced);
            after.lemma_at(at);
            assert forall|k: Seq<char>| #[trigger] after@.dom().contains(k) == want.dom().contains(
                k,
            ) by {
                if after@.contains_key(k) && k != name@ {
                    let j = choose|j: int|
                        0 <= j < entries@.len() && names_in(entries@)[j] == k;
                    let c = if replaced || j < at { j } else { j - 1 };
                    assert(entries@[j] == was[c]);
                    assert(names_in(was)[c] == k);
                }
                if before@.contains_key(k) && k != name@ {
                    let j = choose|j: int| 0 <= j < was.len() && names_in(was)[j] == k;
                    let c = if replaced || j < at { j } else { j + 1 };
                    assert(entries@[c] == was[j]);
                    assert(names_in(entries@)[c] == k);
                }
            }
            assert forall|k: Seq<char>| #[trigger] want.contains_key(k) implies after@[k]
                == want[k] by {
                if k != name@ {
                    let j = choose|j: int| 0 <= j < was.len() && names_in(was)[j] == k;
                    let c = if replaced || j < at { j } else { j + 1 };
                    assert(entries@[c] == was[j]);
                    before.lemma_at(j);
                    after.lemma_at(c);
                }
            }
            assert(after@.dom() =~= want.dom());
            assert(after@ =~= want);
        }
        self.entries = entries;
    }

    pub fn copy(&self) -> (r: Self)
        ensures
            r@ == self@,
        decreases self,
    {
        proof {
            use_type_invariant(self);
        }
        let mut entries: Vec<MetadataEntry> = Vec::new();
        let mut i: usize = 0;
        while i < self.entries.len()
            invariant
                i <= self.entries@.len(),
                entries@.len() == i,
                forall|j: int|
                    0 <= j < i ==> (#[trigger] entries@[j]).name@ == self.entries@[j].name@
                        && entries@[j].value@ == self.entries@[j].value@,
            decreases self.entries@.len() - i,
        {
            let name = owned(self.entries[i].name.as_str());
            let value = self.entries[i].value.copy();
            entries.push(MetadataEntry { name, value });
            i = i + 1;
        }
        proof {
            assert(names_in(entries@) =~= names_in(self.entries@));
        }
        let r = MetadataTable { entries };
        proof {
            assert forall|k: Seq<char>| self@.contains_key(k) implies #[trigger] r@[k]
                == self@[k] by {
                let j = choose|j: int|
                    0 <= j < self.entries@.len() && names_in(self.entries@)[j] == k;
                self.lemma_at(j);
                r.lemma_at(j);
            }
            assert(r@ =~= self@);
        }
        r
    }
}

impl Clone for MetadataTable {
    fn clone(&self) -> (r: Self)
        ensures
            r@ == self@,
    {
        self.copy()
    }
}

impl MetadataValue {
    pub fn string(text: &str) -> (r: Self)
        ensures
            r@ == MetadataTree::Text(text@),
    {
        MetadataValue::Text(owned(text))
    }

    /// A floating-point number, which must be finite.
    pub fn float(value: F64) -> (r: Result<Self>)
        ensures
            value.finite() ==> r is Ok && r->Ok_0@ == MetadataTree::Float(value),
            !value.finite() ==> is_invalid(r, "metadata floats must be finite"@),
    {
        if !value.is_finite() {
            return Err(RustySatError::invalid_input("metadata floats must be finite"));
        }
        Ok(MetadataValue::Float(value))
    }

    /// The text, where the value is one.
    pub fn as_str(&self) -> (r: Option<&str>)
        ensures
            r is Some == self@ is Text,
            r is Some ==> r->Some_0@ == self@->Text_0,
    {
        match self {
            MetadataValue::Text(s) => Some(s.as_str()),
            _ => None,
        }
    }

    /// The table, where the value is one.
    pub fn as_table(&self) -> (r: Option<&MetadataTable>)
        ensures
            r is Some == self@ is Table,
            r is Some ==> r->Some_0@ == self@->Table_0,
    {
        match self {
            MetadataValue::Table(m) => Some(m),
            _ => None,
        }
    }

    pub fn copy(&self) -> (r: Self)
        ensures
            r@ == self@,
        decreases self,
    {
        proof {
            lemma_tree(*self);
        }
        let r = match self {
            MetadataValue::Text(s) => MetadataValue::Text(owned(s.as_str())),
            MetadataValue::Integer(n) => MetadataValue::Integer(*n),
            MetadataValue::Float(x) => MetadataValue::Float(*x),
            MetadataValue::List(list) => {
                let mut out: Vec<MetadataValue> = Vec::new();
                let mut i: usize = 0;
                while i < list.len()
                    invariant
                        *self == MetadataValue::List(*list),
                        i <= list@.len(),
                        out@.len() == i,
                        forall|j: int| 0 <= j < i ==> (#[trigger] out@[j])@ == list@[j]@,
                    decreases list@.len() - i,
                {
                    proof {
                        assert(decreases_to!(*self => self->List_0));
                        assert(decreases_to!(self->List_0 => self->List_0[i as int]));
                    }
                    let value = list[i].copy();
                    out.push(value);
                    i = i + 1;
                }
                assert(trees(out@) =~= trees(list@));
                MetadataValue::List(out)
            },
            MetadataValue::Table(m) => MetadataValue::Table(m.copy()),
        };
        proof {
            lemma_tree(r);
        }
        r
    }
}

impl Clone for MetadataValue {
    fn clone(&self) -> (r: Self)
        ensures
            r@ == self@,
    {
        self.copy()
    }
}

impl Duplicate for MetadataValue {
    fn duplicate(&self) -> (r: Self) {
        self.copy()
    }
}

/// Whether a value is a number.
pub open spec fn is_number(v: MetadataTree) -> bool {
    v is Float || v is Integer
}

/// Whether `x` is the number that a value holds, or the nearest one to the integer that it
/// holds.
pub open spec fn number_in(v: MetadataTree, x: F64) -> bool {
    match v {
        MetadataTree::Float(y) => x == y,
        MetadataTree::Integer(n) => is_nearest(x, n as int),
        _ => false,
    }
}

/// A size in a value: an integer that is not negative.
pub open spec fn size_in(v: MetadataTree) -> Option<usize> {
    match v {
        MetadataTree::Integer(n) => if 0 <= n <= usize::MAX {
            Some(n as usize)
        } else {
            None
        },
        _ => None,
    }
}

/// The size with a name in a table.
pub open spec fn size_at(m: Map<Seq<char>, MetadataTree>, name: Seq<char>) -> Option<usize> {
    if m.contains_key(name) {
        size_in(m[name])
    } else {
        None
    }
}

/// The text with a name in a table.
pub open spec fn text_at(m: Map<Seq<char>, MetadataTree>, name: Seq<char>) -> Option<Seq<char>> {
    if m.contains_key(name) && m[name] is Text {
        Some(m[name]->Text_0)
    } else {
        None
    }
}

/// Whether a table has a list of four numbers with a name.
pub open spec fn has_four(m: Map<Seq<char>, MetadataTree>, name: Seq<char>) -> bool {
    &&& m.contains_key(name)
    &&& m[name] is List
    &&& m[name]->List_0.len() == 4
    &&& forall|i: int| 0 <= i < 4 ==> is_number(#[trigger] m[name]->List_0[i])
}

/// Whether `e` are the numbers of a list.
pub open spec fn numbers_in(list: Seq<MetadataTree>, e: Seq<F64>) -> bool {
    e.len() == list.len() && forall|i: int|
        0 <= i < list.len() ==> number_in(list[i], #[trigger] e[i])
}

pub fn metadata_f64(value: &MetadataValue) -> (r: Option<F64>)
    ensures
        r is Some == is_number(value@),
        r is Some ==> number_in(value@, r->Some_0),
{
    proof {
        lemma_tree(*value);
    }
    match value {
        MetadataValue::Float(x) => Some(*x),
        MetadataValue::Integer(n) => Some(F64::from_i64(*n)),
        _ => None,
    }
}

/// The four numbers of a list, where it has four.
pub fn metadata_f64_list4(value: &MetadataValue) -> (r: Option<Vec<F64>>)
    ensures
        r is Some == (value@ is List && value@->List_0.len() == 4 && forall|i: int|
            0 <= i < 4 ==> is_number(#[trigger] value@->List_0[i])),
        r is Some ==> numbers_in(value@->List_0, r->Some_0@),
{
    proof {
        lemma_tree(*value);
    }
    match value {
        MetadataValue::List(list) => {
            let ghost all = trees(list@);
            if list.len() != 4 {
                return None;
            }
            let mut out: Vec<F64> = Vec::new();
            let mut i: usize = 0;
            while i < 4
                invariant
                    i <= 4,
                    list@.len() == 4,
                    all == trees(list@),
                    value@ == MetadataTree::List(all),
                    out@.len() == i,
                    forall|j: int|
                        0 <= j < i ==> number_in(all[j], #[trigger] out@[j]) && is_number(
                            all[j],
                        ),
                decreases 4 - i,
            {
                match metadata_f64(&list[i]) {
                    Some(x) => {
                        out.push(x);
                    },
                    None => {
                        assert(!is_number(all[i as int]));
                        return None;
                    },
                }
                i = i + 1;
            }
            proof {
                assert forall|j: int| 0 <= j < 4 implies is_number(
                    #[trigger] value@->List_0[j],
                ) by {
                    assert(number_in(all[j], out@[j]));
                }
            }
            Some(out)
        },
        _ => None,
    }
}

pub fn metadata_usize(value: &MetadataValue) -> (r: Option<usize>)
    ensures
        r == size_in(value@),
{
    proof {
        lemma_tree(*value);
    }
    match value {
        MetadataValue::Integer(n) => {
            let most: u128 = usize::MAX as u128;
            if *n >= 0 && (*n as u128) <= most {
                Some(*n as usize)
            } else {
                None
            }
        },
        _ => None,
    }
}

/// The texts of a table.
pub open spec fn texts_in(m: Map<Seq<char>, MetadataTree>) -> Map<Seq<char>, Seq<char>> {
    Map::new(
        |k: Seq<char>| m.contains_key(k) && m[k] is Text,
        |k: Seq<char>| m[k]->Text_0,
    )
}

/// The texts of a table.
pub fn table_texts(table: &MetadataTable) -> (r: TextMap<String>)
    ensures
        r@ == texts_in(table@),
{
    let mut out: TextMap<String> = TextMap::new();
    let n: usize = table.len();
    let ghost names = table.names();
    let ghost m = table@;
    let mut i: usize = 0;
    while i < n
        invariant
            i <= n,
            n == names.len(),
            names == table.names(),
            m == table@,
            forall|k: Seq<char>| #[trigger]
                out@.contains_key(k) ==> m.contains_key(k) && m[k] is Text && out@[k]
                    == m[k]->Text_0,
            forall|j: int|
                0 <= j < i && m[#[trigger] names[j]] is Text ==> out@.contains_key(names[j]),
        decreases n - i,
    {
        let name = table.name_at(i);
        match table.value_at(i).as_str() {
            Some(t) => {
                out.insert(owned(name.as_str()), owned(t));
            },
            None => {},
        }
        i = i + 1;
    }
    proof {
        assert forall|k: Seq<char>| texts_in(m).contains_key(k) implies #[trigger] out@.contains_key(
            k,
        ) by {
            assert(names.to_set().contains(k));
            let j = choose|j: int| 0 <= j < names.len() && names[j] == k;
            assert(m[names[j]] is Text);
        }
        assert(out@ =~= texts_in(m));
    }
    out
}

} // verus!
