//! Documents in YAML as trees of plain values.

use crate::number::F64;
use crate::text::{owned, same_text};
use vstd::prelude::*;

verus! {

/// The type that `serde_yaml` reads documents into.
#[verifier::external_type_specification]
#[verifier::external_body]
pub struct ExAreaValue(serde_yaml::Value);

/// The type that `serde_norway` reads documents into.
#[verifier::external_type_specification]
#[verifier::external_body]
pub struct ExSwathValue(serde_norway::Value);

/// A number of a document: as a natural number, where it is one, as a floating-point
/// number, and as a text.
pub struct YamlNumber {
    pub natural: Option<u64>,
    pub value: Option<F64>,
    pub text: String,
}

/// A number of a document, as a mathematical value.
#[verifier::ext_equal]
pub struct NumberView {
    pub natural: Option<u64>,
    pub value: Option<F64>,
    pub text: Seq<char>,
}

impl View for YamlNumber {
    type V = NumberView;

    open spec fn view(&self) -> NumberView {
        NumberView { natural: self.natural, value: self.value, text: self.text@ }
    }
}

/// A part of a document. A table has its keys and, in the same order, their values.
pub enum YamlNode {
    Null,
    Bool(bool),
    Number(YamlNumber),
    Text(String),
    List(Vec<YamlNode>),
    Table(Vec<YamlNode>, Vec<YamlNode>),
    Tagged(Box<YamlNode>),
}

/// A part of a document, as a mathematical value.
#[verifier::ext_equal]
pub enum YamlTree {
    Null,
    Bool(bool),
    Number(NumberView),
    Text(Seq<char>),
    List(Seq<YamlTree>),
    Table(Seq<YamlTree>, Seq<YamlTree>),
    Tagged(Box<YamlTree>),
}

impl YamlNode {
    pub open spec fn tree(self) -> YamlTree
        decreases self,
    {
        match self {
            YamlNode::Null => YamlTree::Null,
            YamlNode::Bool(b) => YamlTree::Bool(b),
            YamlNode::Number(n) => YamlTree::Number(n@),
            YamlNode::Text(s) => YamlTree::Text(s@),
            YamlNode::List(v) => YamlTree::List(
                Seq::new(
                    v@.len(),
                    |i: int|
                        if 0 <= i < v@.len() {
                            v@[i].tree()
                        } else {
                            YamlTree::Null
                        },
                ),
            ),
            YamlNode::Table(k, v) => YamlTree::Table(
                Seq::new(
                    k@.len(),
                    |i: int|
                        if 0 <= i < k@.len() {
                            k@[i].tree()
                        } else {
                            YamlTree::Null
                        },
                ),
                Seq::new(
                    v@.len(),
                    |i: int|
                        if 0 <= i < v@.len() {
                            v@[i].tree()
                        } else {
                            YamlTree::Null
                        },
                ),
            ),
            YamlNode::Tagged(b) => YamlTree::Tagged(Box::new((*b).tree())),
        }
    }
}

impl View for YamlNode {
    type V = YamlTree;

    open spec fn view(&self) -> YamlTree {
        self.tree()
    }
}

/// Parts of a document as mathematical values.
pub open spec fn trees(list: Seq<YamlNode>) -> Seq<YamlTree> {
    Seq::new(list.len(), |i: int| list[i]@)
}

/// What a part of a document is as a mathematical value.
pub proof fn lemma_node(node: YamlNode)
    ensures
        node@ == match node {
            YamlNode::Null => YamlTree::Null,
            YamlNode::Bool(b) => YamlTree::Bool(b),
            YamlNode::Number(n) => YamlTree::Number(n@),
            YamlNode::Text(s) => YamlTree::Text(s@),
            YamlNode::List(v) => YamlTree::List(trees(v@)),
            YamlNode::Table(k, v) => YamlTree::Table(trees(k@), trees(v@)),
            YamlNode::Tagged(b) => YamlTree::Tagged(Box::new(b@)),
        },
{
    match node {
        YamlNode::List(v) => {
            assert(node@->List_0 =~= trees(v@));
        },
        YamlNode::Table(k, v) => {
            assert(node@->Table_0 =~= trees(k@));
            assert(node@->Table_1 =~= trees(v@));
        },
        _ => {},
    }
}

/// What a value of `serde_yaml` holds.
pub uninterp spec fn area_tree(value: serde_yaml::Value) -> YamlTree;

/// What a value of `serde_norway` holds.
pub uninterp spec fn swath_tree(value: serde_norway::Value) -> YamlTree;

/// What `serde_yaml` reads in a text: a document, or the text of an error.
pub uninterp spec fn area_document(text: Seq<char>) -> core::result::Result<YamlTree, Seq<char>>;

/// What `serde_norway` reads in a text: a document, or the text of an error.
pub uninterp spec fn swath_document(text: Seq<char>) -> core::result::Result<YamlTree, Seq<char>>;

/// A value of `serde_yaml` with one level of it laid open.
enum AreaLevel<'a> {
    Null,
    Bool(bool),
    Number(YamlNumber),
    Text(&'a str),
    List(&'a Vec<serde_yaml::Value>),
    Table(Vec<&'a serde_yaml::Value>, Vec<&'a serde_yaml::Value>),
    Tagged(&'a serde_yaml::Value),
}

/// A value of `serde_norway` with one level of it laid open.
enum SwathLevel<'a> {
    Null,
    Bool(bool),
    Number(YamlNumber),
    Text(&'a str),
    List(&'a Vec<serde_norway::Value>),
    Table(Vec<&'a serde_norway::Value>, Vec<&'a serde_norway::Value>),
    Tagged(&'a serde_norway::Value),
}

spec fn area_level_tree(level: AreaLevel) -> YamlTree {
    match level {
        AreaLevel::Null => YamlTree::Null,
        AreaLevel::Bool(b) => YamlTree::Bool(b),
        AreaLevel::Number(n) => YamlTree::Number(n@),
        AreaLevel::Text(s) => YamlTree::Text(s@),
        AreaLevel::List(v) => YamlTree::List(Seq::new(v@.len(), |i: int| area_tree(v@[i]))),
        AreaLevel::Table(k, v) => YamlTree::Table(
            Seq::new(k@.len(), |i: int| area_tree(*k@[i])),
            Seq::new(v@.len(), |i: int| area_tree(*v@[i])),
        ),
        AreaLevel::Tagged(v) => YamlTree::Tagged(Box::new(area_tree(*v))),
    }
}

spec fn swath_level_tree(level: SwathLevel) -> YamlTree {
    match level {
        SwathLevel::Null => YamlTree::Null,
        SwathLevel::Bool(b) => YamlTree::Bool(b),
        SwathLevel::Number(n) => YamlTree::Number(n@),
        SwathLevel::Text(s) => YamlTree::Text(s@),
        SwathLevel::List(v) => YamlTree::List(Seq::new(v@.len(), |i: int| swath_tree(v@[i]))),
        SwathLevel::Table(k, v) => YamlTree::Table(
            Seq::new(k@.len(), |i: int| swath_tree(*k@[i])),
            Seq::new(v@.len(), |i: int| swath_tree(*v@[i])),
        ),
        SwathLevel::Tagged(v) => YamlTree::Tagged(Box::new(swath_tree(*v))),
    }
}

/// Matches on a `serde_yaml::Value`. A mapping gives its keys and its values in the same
/// order; a number gives what `as_u64`, `as_f64` and `to_string` make of it. The claim is
/// that these are the parts of what the value holds.
#[verifier::external_body]
fn open_area_value(value: &serde_yaml::Value) -> (r: AreaLevel<'_>)
    ensures
        area_level_tree(r) == area_tree(*value),
{
    match value {
        serde_yaml::Value::Null => AreaLevel::Null,
        serde_yaml::Value::Bool(b) => AreaLevel::Bool(*b),
        serde_yaml::Value::Number(n) => AreaLevel::Number(YamlNumber {
            natural: n.as_u64(),
            value: n.as_f64().map(|v| F64 { bits: v.to_bits() }),
            text: n.to_string(),
        }),
        serde_yaml::Value::String(s) => AreaLevel::Text(s),
        serde_yaml::Value::Sequence(v) => AreaLevel::List(v),
        serde_yaml::Value::Mapping(m) => AreaLevel::Table(m.keys().collect(), m.values().collect()),
        serde_yaml::Value::Tagged(t) => AreaLevel::Tagged(&t.value),
    }
}

/// Matches on a `serde_norway::Value`. A mapping gives its keys and its values in the same
/// order; a number gives what `as_u64`, `as_f64` and `to_string` make of it. The claim is
/// that these are the parts of what the value holds.
#[verifier::external_body]
fn open_swath_value(value: &serde_norway::Value) -> (r: SwathLevel<'_>)
    ensures
        swath_level_tree(r) == swath_tree(*value),
{
    match value {
        serde_norway::Value::Null => SwathLevel::Null,
        serde_norway::Value::Bool(b) => SwathLevel::Bool(*b),
        serde_norway::Value::Number(n) => SwathLevel::Number(YamlNumber {
            natural: n.as_u64(),
            value: n.as_f64().map(|v| F64 { bits: v.to_bits() }),
            text: n.to_string(),
        }),
        serde_norway::Value::String(s) => SwathLevel::Text(s),
        serde_norway::Value::Sequence(v) => SwathLevel::List(v),
        serde_norway::Value::Mapping(m) => SwathLevel::Table(m.keys().collect(), m.values().collect()),
        serde_norway::Value::Tagged(t) => SwathLevel::Tagged(&t.value),
    }
}

/// Calls `serde_yaml::from_str`. The claim is that the outcome depends on the text alone:
/// a value with the document in it, or an error with its text.
#[verifier::external_body]
fn read_area_value(text: &str) -> (r: core::result::Result<serde_yaml::Value, String>)
    ensures
        match r {
            Ok(value) => area_document(text@) == Ok::<YamlTree, Seq<char>>(area_tree(value)),
            Err(e) => area_document(text@) == Err::<YamlTree, Seq<char>>(e@),
        },
{
    serde_yaml::from_str(text).map_err(|e: serde_yaml::Error| e.to_string())
}

/// Calls `serde_norway::from_str`. The claim is that the outcome depends on the text alone:
/// a value with the document in it, or an error with its text.
#[verifier::external_body]
fn read_swath_value(text: &str) -> (r: core::result::Result<serde_norway::Value, String>)
    ensures
        match r {
            Ok(value) => swath_document(text@) == Ok::<YamlTree, Seq<char>>(swath_tree(value)),
            Err(e) => swath_document(text@) == Err::<YamlTree, Seq<char>>(e@),
        },
{
    serde_norway::from_str(text).map_err(|e: serde_norway::Error| e.to_string())
}

fn area_node(value: &serde_yaml::Value) -> (r: YamlNode)
    ensures
        r@ == area_tree(*value),
    decreases area_tree(*value),
{
    let level = open_area_value(value);
    let r = match level {
        AreaLevel::Null => YamlNode::Null,
        AreaLevel::Bool(b) => YamlNode::Bool(b),
        AreaLevel::Number(n) => YamlNode::Number(n),
        AreaLevel::Text(s) => YamlNode::Text(owned(s)),
        AreaLevel::List(v) => {
            let mut nodes: Vec<YamlNode> = Vec::new();
            let mut i: usize = 0;
            while i < v.len()
                invariant
                    i <= v@.len(),
                    area_tree(*value) == YamlTree::List(
                        Seq::new(v@.len(), |i: int| area_tree(v@[i])),
                    ),
                    nodes@.len() == i,
                    forall|j: int| 0 <= j < i ==> #[trigger] nodes@[j]@ == area_tree(v@[j]),
                decreases v@.len() - i,
            {
                assert(area_tree(v@[i as int]) == area_tree(*value)->List_0[i as int]);
                nodes.push(area_node(&v[i]));
                i = i + 1;
            }
            assert(trees(nodes@) =~= area_tree(*value)->List_0);
            YamlNode::List(nodes)
        },
        AreaLevel::Table(k, v) => {
            let ghost keys_seen = Seq::new(k@.len(), |i: int| area_tree(*k@[i]));
            let ghost values_seen = Seq::new(v@.len(), |i: int| area_tree(*v@[i]));
            let mut keys: Vec<YamlNode> = Vec::new();
            let mut i: usize = 0;
            while i < k.len()
                invariant
                    i <= k@.len(),
                    area_tree(*value) == YamlTree::Table(keys_seen, values_seen),
                    keys_seen == Seq::new(k@.len(), |i: int| area_tree(*k@[i])),
                    keys@.len() == i,
                    forall|j: int| 0 <= j < i ==> #[trigger] keys@[j]@ == keys_seen[j],
                decreases k@.len() - i,
            {
                assert(area_tree(*k@[i as int]) == area_tree(*value)->Table_0[i as int]);
                keys.push(area_node(k[i]));
                i = i + 1;
            }
            let mut values: Vec<YamlNode> = Vec::new();
            let mut j: usize = 0;
            while j < v.len()
                invariant
                    j <= v@.len(),
                    area_tree(*value) == YamlTree::Table(keys_seen, values_seen),
                    values_seen == Seq::new(v@.len(), |i: int| area_tree(*v@[i])),
                    values@.len() == j,
                    forall|n: int| 0 <= n < j ==> #[trigger] values@[n]@ == values_seen[n],
                decreases v@.len() - j,
            {
                assert(area_tree(*v@[j as int]) == area_tree(*value)->Table_1[j as int]);
                values.push(area_node(v[j]));
                j = j + 1;
            }
            assert(trees(keys@) =~= keys_seen);
            assert(trees(values@) =~= values_seen);
            YamlNode::Table(keys, values)
        },
        AreaLevel::Tagged(v) => {
            assert(area_tree(*value) == YamlTree::Tagged(Box::new(area_tree(*v))));
            YamlNode::Tagged(Box::new(area_node(v)))
        },
    };
    proof {
        lemma_node(r);
    }
    r
}

fn swath_node(value: &serde_norway::Value) -> (r: YamlNode)
    ensures
        r@ == swath_tree(*value),
    decreases swath_tree(*value),
{
    let level = open_swath_value(value);
    let r = match level {
        SwathLevel::Null => YamlNode::Null,
        SwathLevel::Bool(b) => YamlNode::Bool(b),
        SwathLevel::Number(n) => YamlNode::Number(n),
        SwathLevel::Text(s) => YamlNode::Text(owned(s)),
        SwathLevel::List(v) => {
            let mut nodes: Vec<YamlNode> = Vec::new();
            let mut i: usize = 0;
            while i < v.len()
                invariant
                    i <= v@.len(),
                    swath_tree(*value) == YamlTree::List(
                        Seq::new(v@.len(), |i: int| swath_tree(v@[i])),
                    ),
                    nodes@.len() == i,
                    forall|j: int| 0 <= j < i ==> #[trigger] nodes@[j]@ == swath_tree(v@[j]),
                decreases v@.len() - i,
            {
                assert(swath_tree(v@[i as int]) == swath_tree(*value)->List_0[i as int]);
                nodes.push(swath_node(&v[i]));
                i = i + 1;
            }
            assert(trees(nodes@) =~= swath_tree(*value)->List_0);
            YamlNode::List(nodes)
        },
        SwathLevel::Table(k, v) => {
            let ghost keys_seen = Seq::new(k@.len(), |i: int| swath_tree(*k@[i]));
            let ghost values_seen = Seq::new(v@.len(), |i: int| swath_tree(*v@[i]));
            let mut keys: Vec<YamlNode> = Vec::new();
            let mut i: usize = 0;
            while i < k.len()
                invariant
                    i <= k@.len(),
                    swath_tree(*value) == YamlTree::Table(keys_seen, values_seen),
                    keys_seen == Seq::new(k@.len(), |i: int| swath_tree(*k@[i])),
                    keys@.len() == i,
                    forall|j: int| 0 <= j < i ==> #[trigger] keys@[j]@ == keys_seen[j],
                decreases k@.len() - i,
            {
                assert(swath_tree(*k@[i as int]) == swath_tree(*value)->Table_0[i as int]);
                keys.push(swath_node(k[i]));
                i = i + 1;
            }
            let mut values: Vec<YamlNode> = Vec::new();
            let mut j: usize = 0;
            while j < v.len()
                invariant
                    j <= v@.len(),
                    swath_tree(*value) == YamlTree::Table(keys_seen, values_seen),
                    values_seen == Seq::new(v@.len(), |i: int| swath_tree(*v@[i])),
                    values@.len() == j,
                    forall|n: int| 0 <= n < j ==> #[trigger] values@[n]@ == values_seen[n],
                decreases v@.len() - j,
            {
                assert(swath_tree(*v@[j as int]) == swath_tree(*value)->Table_1[j as int]);
                values.push(swath_node(v[j]));
                j = j + 1;
            }
            assert(trees(keys@) =~= keys_seen);
            assert(trees(values@) =~= values_seen);
            YamlNode::Table(keys, values)
        },
        SwathLevel::Tagged(v) => {
            assert(swath_tree(*value) == YamlTree::Tagged(Box::new(swath_tree(*v))));
            YamlNode::Tagged(Box::new(swath_node(v)))
        },
    };
    proof {
        lemma_node(r);
    }
    r
}

/// Whether `r` is what was read: a document, or the text of an error.
pub open spec fn is_document(
    r: core::result::Result<YamlNode, String>,
    document: core::result::Result<YamlTree, Seq<char>>,
) -> bool {
    match r {
        Ok(node) => document == Ok::<YamlTree, Seq<char>>(node@),
        Err(e) => document == Err::<YamlTree, Seq<char>>(e@),
    }
}

/// The document in the text of areas.
pub fn read_area_document(text: &str) -> (r: core::result::Result<YamlNode, String>)
    ensures
        is_document(r, area_document(text@)),
{
    match read_area_value(text) {
        Ok(value) => Ok(area_node(&value)),
        Err(e) => Err(e),
    }
}

/// The document in the text of swaths.
pub fn read_swath_document(text: &str) -> (r: core::result::Result<YamlNode, String>)
    ensures
        is_document(r, swath_document(text@)),
{
    match read_swath_value(text) {
        Ok(value) => Ok(swath_node(&value)),
        Err(e) => Err(e),
    }
}

/// A part of a document without the tags on it.
pub open spec fn untagged(tree: YamlTree) -> YamlTree
    decreases tree,
{
    match tree {
        YamlTree::Tagged(inner) => untagged(*inner),
        other => other,
    }
}

impl YamlNode {
    fn untag(&self) -> (r: &YamlNode)
        ensures
            r@ == untagged(self@),
            !(r is Tagged),
        decreases self,
    {
        proof {
            lemma_node(*self);
        }
        match self {
            YamlNode::Tagged(inner) => inner.untag(),
            _ => self,
        }
    }

    /// The keys and the values of a table, whatever the tags on it.
    pub fn as_table(&self) -> (r: Option<(&Vec<YamlNode>, &Vec<YamlNode>)>)
        ensures
            match untagged(self@) {
                YamlTree::Table(k, v) => r is Some && trees(r->Some_0.0@) == k && trees(
                    r->Some_0.1@,
                ) == v,
                _ => r is None,
            },
    {
        let bare = self.untag();
        proof {
            lemma_node(*bare);
        }
        match bare {
            YamlNode::Table(k, v) => Some((k, v)),
            _ => None,
        }
    }

    /// The items of a list, whatever the tags on it.
    pub fn as_list(&self) -> (r: Option<&Vec<YamlNode>>)
        ensures
            match untagged(self@) {
                YamlTree::List(v) => r is Some && trees(r->Some_0@) == v,
                _ => r is None,
            },
    {
        let bare = self.untag();
        proof {
            lemma_node(*bare);
        }
        match bare {
            YamlNode::List(v) => Some(v),
            _ => None,
        }
    }

    /// A text, whatever the tags on it.
    pub fn as_text(&self) -> (r: Option<&str>)
        ensures
            match untagged(self@) {
                YamlTree::Text(s) => r is Some && r->Some_0@ == s,
                _ => r is None,
            },
    {
        let bare = self.untag();
        match bare {
            YamlNode::Text(s) => Some(s.as_str()),
            _ => None,
        }
    }

    /// A number, whatever the tags on it.
    pub fn as_number(&self) -> (r: Option<&YamlNumber>)
        ensures
            match untagged(self@) {
                YamlTree::Number(n) => r is Some && r->Some_0@ == n,
                _ => r is None,
            },
    {
        let bare = self.untag();
        match bare {
            YamlNode::Number(n) => Some(n),
            _ => None,
        }
    }

    /// The text of a scalar without a tag.
    pub fn scalar(&self) -> (r: Option<String>)
        ensures
            match scalar_text(self@) {
                Some(s) => r is Some && r->Some_0@ == s,
                None => r is None,
            },
    {
        proof {
            lemma_node(*self);
        }
        match self {
            YamlNode::Text(s) => Some(owned(s.as_str())),
            YamlNode::Number(n) => Some(owned(n.text.as_str())),
            YamlNode::Bool(b) => {
                if *b {
                    Some(owned("true"))
                } else {
                    Some(owned("false"))
                }
            },
            _ => None,
        }
    }
}

/// The text of a scalar without a tag.
pub open spec fn scalar_text(tree: YamlTree) -> Option<Seq<char>> {
    match tree {
        YamlTree::Text(s) => Some(s),
        YamlTree::Number(n) => Some(n.text),
        YamlTree::Bool(b) => Some(
            if b {
                "true"@
            } else {
                "false"@
            },
        ),
        _ => None,
    }
}

/// The floating-point number of a part of a document.
pub open spec fn tree_number(tree: YamlTree) -> Option<F64> {
    match untagged(tree) {
        YamlTree::Number(n) => n.value,
        _ => None,
    }
}

/// The value of a key that is a text without a tag.
pub open spec fn entry_in(keys: Seq<YamlTree>, values: Seq<YamlTree>, key: Seq<char>) -> Option<
    YamlTree,
>
    decreases keys.len(),
{
    if keys.len() == 0 || values.len() == 0 {
        None
    } else if keys[0] == YamlTree::Text(key) {
        Some(values[0])
    } else {
        entry_in(keys.drop_first(), values.drop_first(), key)
    }
}

pub fn find_entry<'a>(keys: &Vec<YamlNode>, values: &'a Vec<YamlNode>, key: &str) -> (r: Option<
    &'a YamlNode,
>)
    ensures
        match entry_in(trees(keys@), trees(values@), key@) {
            Some(t) => r is Some && r->Some_0@ == t,
            None => r is None,
        },
{
    let ghost k = trees(keys@);
    let ghost v = trees(values@);
    let mut i: usize = 0;
    assert(k.skip(0) =~= k);
    assert(v.skip(0) =~= v);
    while i < keys.len() && i < values.len()
        invariant
            i <= keys@.len(),
            i <= values@.len(),
            k == trees(keys@),
            v == trees(values@),
            entry_in(k, v, key@) == entry_in(k.skip(i as int), v.skip(i as int), key@),
        decreases keys@.len() - i,
    {
        proof {
            lemma_node(keys@[i as int]);
            assert(k.skip(i as int)[0] == k[i as int]);
            assert(v.skip(i as int)[0] == v[i as int]);
            assert(k.skip(i as int).drop_first() =~= k.skip(i + 1));
            assert(v.skip(i as int).drop_first() =~= v.skip(i + 1));
        }
        match &keys[i] {
            YamlNode::Text(s) => {
                if same_text(s.as_str(), key) {
                    return Some(&values[i]);
                }
            },
            _ => {},
        }
        i = i + 1;
    }
    None
}

/// The floating-point number of a part of a document.
pub fn number_of(node: &YamlNode) -> (r: Option<F64>)
    ensures
        r == tree_number(node@),
{
    match node.as_number() {
        Some(n) => n.value,
        None => None,
    }
}

/// Whether a table writes a value under a key: it is the first with that key.
pub open spec fn writes(
    keys: Seq<YamlTree>,
    values: Seq<YamlTree>,
    key: Seq<char>,
    tree: YamlTree,
) -> bool {
    exists|i: int|
        0 <= i < keys.len() && i < values.len() && #[trigger] keys[i] == YamlTree::Text(key)
            && values[i] == tree && no_earlier(keys, i, key)
}

/// Whether none of the first `n` keys is a text.
pub open spec fn no_earlier(keys: Seq<YamlTree>, n: int, key: Seq<char>) -> bool {
    forall|k: int| 0 <= k < n ==> #[trigger] keys[k] != YamlTree::Text(key)
}

/// A value that a table writes is found under its key, and nothing under another.
pub proof fn lemma_written_is_found(
    keys: Seq<YamlTree>,
    values: Seq<YamlTree>,
    key: Seq<char>,
    tree: YamlTree,
)
    ensures
        writes(keys, values, key, tree) ==> entry_in(keys, values, key) == Some(tree),
        no_earlier(keys, keys.len() as int, key) ==> entry_in(keys, values, key) is None,
    decreases keys.len(),
{
    if keys.len() > 0 && values.len() > 0 {
        let (ks, vs) = (keys.drop_first(), values.drop_first());
        lemma_written_is_found(ks, vs, key, tree);
        if writes(keys, values, key, tree) {
            let i = choose|i: int|
                0 <= i < keys.len() && i < values.len() && #[trigger] keys[i] == YamlTree::Text(key)
                    && values[i] == tree && no_earlier(keys, i, key);
            if i > 0 {
                assert(keys[0] != YamlTree::Text(key));
                assert(ks[i - 1] == YamlTree::Text(key) && vs[i - 1] == tree);
                assert forall|k: int| 0 <= k < i - 1 implies #[trigger] ks[k] != YamlTree::Text(
                    key,
                ) by {
                    assert(keys[k + 1] != YamlTree::Text(key));
                }
                assert(no_earlier(ks, i - 1, key));
                assert(writes(ks, vs, key, tree));
            }
        }
        if no_earlier(keys, keys.len() as int, key) {
            assert(keys[0] != YamlTree::Text(key));
            assert forall|k: int| 0 <= k < ks.len() implies #[trigger] ks[k] != YamlTree::Text(
                key,
            ) by {
                assert(keys[k + 1] != YamlTree::Text(key));
            }
        }
    }
}

/// Whether a part of a document is a natural number.
pub open spec fn is_count(tree: YamlTree, n: usize) -> bool {
    tree is Number && tree->Number_0.natural is Some && tree->Number_0.natural->Some_0 == n
}

/// Whether a part of a document is a floating-point number.
pub open spec fn is_value(tree: YamlTree, v: F64) -> bool {
    tree is Number && tree->Number_0.value == Some(v)
}

} // verus!
