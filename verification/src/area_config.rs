//! Areas that are described in YAML.

use crate::area::{area_made, AreaDefinition, AreaView};
use crate::error::{fails_with, shows, ErrorView, Result, RustySatError};
use crate::number::F64;
use crate::text::{join2, join3, join5, owned};
use crate::text_map::TextMap;
use crate::yaml::{
    area_document, entry_in, find_entry, is_count, is_value, lemma_node, lemma_written_is_found,
    no_earlier, number_of, read_area_document, scalar_text, tree_number, trees, untagged, writes,
    YamlNode, YamlTree,
};
use vstd::prelude::*;

verus! {

/// What a step of reading gives: a value, or an error.
pub type Reading<T> = core::result::Result<T, ErrorView>;

/// The error for an input that is not accepted.
pub open spec fn refused<T>(text: Seq<char>) -> Reading<T> {
    Err(ErrorView::InvalidInput(text))
}

/// The value of a key that has to be there. `owner` names the table.
pub open spec fn needed_entry(
    keys: Seq<YamlTree>,
    values: Seq<YamlTree>,
    key: Seq<char>,
    kind: Seq<char>,
    owner: Seq<char>,
) -> Reading<YamlTree> {
    match entry_in(keys, values, key) {
        Some(t) => Ok(t),
        None => refused(kind + owner + "' missing '"@ + key + "'"@),
    }
}

/// The text of a scalar.
pub open spec fn needed_scalar(tree: YamlTree) -> Reading<Seq<char>> {
    match scalar_text(tree) {
        Some(s) => Ok(s),
        None => refused("YAML value must be a scalar string, number, or bool"@),
    }
}

/// The text of a key that may be missing; the text is then another one.
pub open spec fn text_entry(
    keys: Seq<YamlTree>,
    values: Seq<YamlTree>,
    key: Seq<char>,
    other: Seq<char>,
) -> Reading<Seq<char>> {
    match entry_in(keys, values, key) {
        Some(t) => needed_scalar(t),
        None => Ok(other),
    }
}

/// The texts of the first `n` entries by their keys. `keys_text` is the text of the error for
/// a key that is no text.
pub open spec fn texts_in_table(
    keys: Seq<YamlTree>,
    values: Seq<YamlTree>,
    n: nat,
    keys_text: Seq<char>,
) -> Reading<Map<Seq<char>, Seq<char>>>
    decreases n,
{
    if n == 0 {
        Ok(Map::empty())
    } else {
        match texts_in_table(keys, values, (n - 1) as nat, keys_text) {
            Err(e) => Err(e),
            Ok(m) => match untagged(keys[n - 1]) {
                YamlTree::Text(key) => match needed_scalar(values[n - 1]) {
                    Err(e) => Err(e),
                    Ok(s) => Ok(m.insert(key, s)),
                },
                _ => refused(keys_text),
            },
        }
    }
}

/// The number of entries of a table.
pub open spec fn entries(keys: Seq<YamlTree>, values: Seq<YamlTree>) -> nat {
    if keys.len() <= values.len() {
        keys.len()
    } else {
        values.len()
    }
}

/// The parameters of a projection: those of a table, or a text in PROJ's language.
pub open spec fn projection_of(
    tree: YamlTree,
    keys_text: Seq<char>,
    other_text: Seq<char>,
) -> Reading<Map<Seq<char>, Seq<char>>> {
    match tree {
        YamlTree::Text(s) => Ok(Map::empty().insert("proj4"@, s)),
        YamlTree::Table(keys, values) => texts_in_table(
            keys,
            values,
            entries(keys, values),
            keys_text,
        ),
        _ => refused(other_text),
    }
}

/// A size of the machine.
pub open spec fn size_of_tree(tree: YamlTree, name: Seq<char>) -> Reading<usize> {
    match untagged(tree) {
        YamlTree::Number(n) => match n.natural {
            Some(v) => if v <= usize::MAX {
                Ok(v as usize)
            } else {
                refused(
                    name + " out of range: "@
                        + "out of range integral type conversion attempted"@,
                )
            },
            None => refused(name + " must be a positive integer"@),
        },
        _ => refused(name + " must be a positive integer"@),
    }
}

/// The height and the width of an area.
pub open spec fn shape_of_tree(tree: YamlTree) -> Reading<(usize, usize)> {
    match untagged(tree) {
        YamlTree::Table(keys, values) => match needed_entry(
            keys,
            values,
            "height"@,
            "area '"@,
            "shape"@,
        ) {
            Err(e) => Err(e),
            Ok(h) => match size_of_tree(h, "shape.height"@) {
                Err(e) => Err(e),
                Ok(height) => match needed_entry(keys, values, "width"@, "area '"@, "shape"@) {
                    Err(e) => Err(e),
                    Ok(w) => match size_of_tree(w, "shape.width"@) {
                        Err(e) => Err(e),
                        Ok(width) => Ok((height, width)),
                    },
                },
            },
        },
        _ => refused("shape must be a mapping"@),
    }
}

/// The first `n` numbers of a list.
pub open spec fn numbers_in_list(list: Seq<YamlTree>, n: nat, text: Seq<char>) -> Reading<Seq<F64>>
    decreases n,
{
    if n == 0 {
        Ok(Seq::empty())
    } else {
        match numbers_in_list(list, (n - 1) as nat, text) {
            Err(e) => Err(e),
            Ok(s) => match tree_number(list[n - 1]) {
                Some(x) => Ok(s.push(x)),
                None => refused(text),
            },
        }
    }
}

/// The numbers of a list with two of them.
pub open spec fn pair_in(list: Seq<YamlTree>, name: Seq<char>) -> Reading<Seq<F64>> {
    if list.len() != 2 {
        refused(name + " must contain 2 numeric values"@)
    } else {
        numbers_in_list(list, 2, name + " must be numeric"@)
    }
}

/// The numbers of a list with four of them.
pub open spec fn quad_in(list: Seq<YamlTree>, name: Seq<char>) -> Reading<Seq<F64>> {
    if list.len() != 4 {
        refused(name + " must contain 4 numeric values"@)
    } else {
        numbers_in_list(list, 4, name + " must be numeric"@)
    }
}

/// One corner of an extent.
pub open spec fn corner_of(keys: Seq<YamlTree>, values: Seq<YamlTree>, name: Seq<char>) -> Reading<
    Seq<F64>,
> {
    match needed_entry(keys, values, name, "area '"@, "area_extent"@) {
        Err(e) => Err(e),
        Ok(t) => match untagged(t) {
            YamlTree::List(list) => pair_in(list, name),
            _ => refused(name + " must be a list"@),
        },
    }
}

/// The extent of an area: four numbers, or two corners.
pub open spec fn extent_of_tree(tree: YamlTree) -> Reading<Seq<F64>> {
    match tree {
        YamlTree::List(list) => quad_in(list, "area_extent"@),
        _ => match untagged(tree) {
            YamlTree::Table(keys, values) => match corner_of(keys, values, "lower_left_xy"@) {
                Err(e) => Err(e),
                Ok(lower) => match corner_of(keys, values, "upper_right_xy"@) {
                    Err(e) => Err(e),
                    Ok(upper) => Ok(lower + upper),
                },
            },
            _ => refused("area_extent must be a mapping or list"@),
        },
    }
}

/// The area that a table describes.
pub open spec fn area_of_table(
    id: Seq<char>,
    keys: Seq<YamlTree>,
    values: Seq<YamlTree>,
) -> Reading<AreaView> {
    match text_entry(keys, values, "description"@, id) {
        Err(e) => Err(e),
        Ok(description) => match text_entry(keys, values, "proj_id"@, id) {
            Err(e) => Err(e),
            Ok(proj_id) => match needed_entry(keys, values, "projection"@, "area '"@, id) {
                Err(e) => Err(e),
                Ok(p) => match projection_of(
                    p,
                    "projection keys must be strings"@,
                    "projection must be a mapping or PROJ string"@,
                ) {
                    Err(e) => Err(e),
                    Ok(projection) => area_with(
                        id,
                        keys,
                        values,
                        description,
                        proj_id,
                        projection,
                    ),
                },
            },
        },
    }
}

/// The area that a table describes, once its projection is known.
pub open spec fn area_with(
    id: Seq<char>,
    keys: Seq<YamlTree>,
    values: Seq<YamlTree>,
    description: Seq<char>,
    proj_id: Seq<char>,
    projection: Map<Seq<char>, Seq<char>>,
) -> Reading<AreaView> {
    match needed_entry(keys, values, "shape"@, "area '"@, id) {
        Err(e) => Err(e),
        Ok(s) => match shape_of_tree(s) {
            Err(e) => Err(e),
            Ok((height, width)) => match needed_entry(
                keys,
                values,
                "area_extent"@,
                "area '"@,
                id,
            ) {
                Err(e) => Err(e),
                Ok(x) => match extent_of_tree(x) {
                    Err(e) => Err(e),
                    Ok(extent) => area_made(
                        id,
                        description,
                        proj_id,
                        projection,
                        height,
                        width,
                        extent,
                    ),
                },
            },
        },
    }
}

/// The area with an identifier.
pub open spec fn area_in_tree(id: Seq<char>, tree: YamlTree) -> Reading<AreaView> {
    match untagged(tree) {
        YamlTree::Table(keys, values) => area_of_table(id, keys, values),
        _ => refused("area '"@ + id + "' must be a mapping"@),
    }
}

/// The first `n` areas by their identifiers.
pub open spec fn areas_in_table(keys: Seq<YamlTree>, values: Seq<YamlTree>, n: nat) -> Reading<
    Map<Seq<char>, AreaView>,
>
    decreases n,
{
    if n == 0 {
        Ok(Map::empty())
    } else {
        match areas_in_table(keys, values, (n - 1) as nat) {
            Err(e) => Err(e),
            Ok(m) => match untagged(keys[n - 1]) {
                YamlTree::Text(id) => match area_in_tree(id, values[n - 1]) {
                    Err(e) => Err(e),
                    Ok(area) => Ok(m.insert(id, area)),
                },
                _ => refused("area id keys must be strings"@),
            },
        }
    }
}

/// The areas of a document.
pub open spec fn areas_in_tree(tree: YamlTree) -> Reading<Map<Seq<char>, AreaView>> {
    match untagged(tree) {
        YamlTree::Table(keys, values) => areas_in_table(keys, values, entries(keys, values)),
        _ => refused("area YAML root must be a mapping"@),
    }
}

/// The areas of a text.
pub open spec fn areas_in_text(text: Seq<char>) -> Reading<Map<Seq<char>, AreaView>> {
    match area_document(text) {
        Err(e) => refused("invalid area YAML: "@ + e),
        Ok(tree) => areas_in_tree(tree),
    }
}

/// One of some areas.
pub open spec fn area_among(areas: Reading<Map<Seq<char>, AreaView>>, id: Seq<char>) -> Reading<
    AreaView,
> {
    match areas {
        Err(e) => Err(e),
        Ok(m) => if m.contains_key(id) {
            Ok(m[id])
        } else {
            Err(ErrorView::NotFound("area definition '"@ + id + "'"@))
        },
    }
}

pub(crate) fn required_value<'a>(
    keys: &Vec<YamlNode>,
    values: &'a Vec<YamlNode>,
    key: &str,
    kind: &str,
    owner: &str,
) -> (r: Result<&'a YamlNode>)
    ensures
        match needed_entry(trees(keys@), trees(values@), key@, kind@, owner@) {
            Ok(t) => r is Ok && r->Ok_0@ == t,
            Err(e) => fails_with(r, e),
        },
{
    match find_entry(keys, values, key) {
        Some(node) => Ok(node),
        None => {
            let text = join5(kind, owner, "' missing '", key, "'");
            Err(RustySatError::invalid_input(text.as_str()))
        },
    }
}

pub(crate) fn yaml_scalar_to_string(node: &YamlNode) -> (r: Result<String>)
    ensures
        shows(r, needed_scalar(node@)),
{
    match node.scalar() {
        Some(s) => Ok(s),
        None => Err(
            RustySatError::invalid_input("YAML value must be a scalar string, number, or bool"),
        ),
    }
}

fn text_or(keys: &Vec<YamlNode>, values: &Vec<YamlNode>, key: &str, other: &str) -> (r: Result<
    String,
>)
    ensures
        shows(r, text_entry(trees(keys@), trees(values@), key@, other@)),
{
    match find_entry(keys, values, key) {
        Some(node) => yaml_scalar_to_string(node),
        None => Ok(owned(other)),
    }
}

pub(crate) fn parse_projection(node: &YamlNode, keys_text: &str, other_text: &str) -> (r: Result<
    TextMap<String>,
>)
    ensures
        match projection_of(node@, keys_text@, other_text@) {
            Ok(m) => r is Ok && r->Ok_0@ == m,
            Err(e) => fails_with(r, e),
        },
{
    proof {
        lemma_node(*node);
    }
    match node {
        YamlNode::Text(s) => {
            let mut map: TextMap<String> = TextMap::new();
            map.insert(owned("proj4"), owned(s.as_str()));
            Ok(map)
        },
        YamlNode::Table(keys, values) => {
            let ghost k = trees(keys@);
            let ghost v = trees(values@);
            let mut map: TextMap<String> = TextMap::new();
            let mut i: usize = 0;
            while i < keys.len() && i < values.len()
                invariant
                    i <= entries(k, v),
                    k == trees(keys@),
                    v == trees(values@),
                    texts_in_table(k, v, i as nat, keys_text@) == Ok::<
                        Map<Seq<char>, Seq<char>>,
                        ErrorView,
                    >(map@),
                    projection_of(node@, keys_text@, other_text@) == texts_in_table(
                        k,
                        v,
                        entries(k, v),
                        keys_text@,
                    ),
                decreases keys@.len() - i,
            {
                let ghost n: nat = (i + 1) as nat;
                assert(texts_in_table(k, v, (n - 1) as nat, keys_text@) is Ok);
                let key = match keys[i].as_text() {
                    Some(key) => key,
                    None => {
                        proof {
                            assert(texts_in_table(k, v, n, keys_text@) == refused::<
                                Map<Seq<char>, Seq<char>>,
                            >(keys_text@));
                            lemma_texts_fail(k, v, n, entries(k, v), keys_text@);
                        }
                        return Err(RustySatError::invalid_input(keys_text));
                    },
                };
                match yaml_scalar_to_string(&values[i]) {
                    Ok(text) => {
                        map.insert(owned(key), text);
                    },
                    Err(e) => {
                        proof {
                            assert(texts_in_table(k, v, n, keys_text@) is Err);
                            lemma_texts_fail(k, v, n, entries(k, v), keys_text@);
                        }
                        return Err(e);
                    },
                }
                i = i + 1;
            }
            Ok(map)
        },
        _ => Err(RustySatError::invalid_input(other_text)),
    }
}

/// Once an entry is refused, so are all with it.
proof fn lemma_texts_fail(
    keys: Seq<YamlTree>,
    values: Seq<YamlTree>,
    a: nat,
    b: nat,
    keys_text: Seq<char>,
)
    requires
        a <= b,
        texts_in_table(keys, values, a, keys_text) is Err,
    ensures
        texts_in_table(keys, values, b, keys_text) == texts_in_table(keys, values, a, keys_text),
    decreases b - a,
{
    if a < b {
        lemma_texts_fail(keys, values, a, (b - 1) as nat, keys_text);
    }
}

fn parse_usize(node: &YamlNode, name: &str) -> (r: Result<usize>)
    ensures
        crate::error::agrees(r, size_of_tree(node@, name@)),
{
    let natural = match node.as_number() {
        Some(n) => n.natural,
        None => None,
    };
    match natural {
        Some(v) => {
            if v > usize::MAX as u64 {
                let text = join3(
                    name,
                    " out of range: ",
                    "out of range integral type conversion attempted",
                );
                return Err(RustySatError::invalid_input(text.as_str()));
            }
            Ok(v as usize)
        },
        None => {
            let text = join2(name, " must be a positive integer");
            Err(RustySatError::invalid_input(text.as_str()))
        },
    }
}

fn parse_shape(node: &YamlNode) -> (r: Result<(usize, usize)>)
    ensures
        crate::error::agrees(r, shape_of_tree(node@)),
{
    let (keys, values) = match node.as_table() {
        Some(table) => table,
        None => {
            return Err(RustySatError::invalid_input("shape must be a mapping"));
        },
    };
    let height_node = match required_value(keys, values, "height", "area '", "shape") {
        Ok(v) => v,
        Err(e) => {
            return Err(e);
        },
    };
    let height: usize = match parse_usize(height_node, "shape.height") {
        Ok(v) => v,
        Err(e) => {
            return Err(e);
        },
    };
    let width_node = match required_value(keys, values, "width", "area '", "shape") {
        Ok(v) => v,
        Err(e) => {
            return Err(e);
        },
    };
    let width: usize = match parse_usize(width_node, "shape.width") {
        Ok(v) => v,
        Err(e) => {
            return Err(e);
        },
    };
    Ok((height, width))
}

proof fn lemma_numbers_fail(list: Seq<YamlTree>, a: nat, b: nat, text: Seq<char>)
    requires
        a <= b,
        numbers_in_list(list, a, text) is Err,
    ensures
        numbers_in_list(list, b, text) == numbers_in_list(list, a, text),
    decreases b - a,
{
    if a < b {
        lemma_numbers_fail(list, a, (b - 1) as nat, text);
    }
}

pub(crate) fn parse_numbers(list: &Vec<YamlNode>, text: &str) -> (r: Result<Vec<F64>>)
    ensures
        match numbers_in_list(trees(list@), list@.len(), text@) {
            Ok(s) => r is Ok && r->Ok_0@ == s && s.len() == list@.len(),
            Err(e) => fails_with(r, e),
        },
{
    let ghost l = trees(list@);
    let mut numbers: Vec<F64> = Vec::new();
    let mut i: usize = 0;
    while i < list.len()
        invariant
            i <= list@.len(),
            l == trees(list@),
            numbers@.len() == i,
            numbers_in_list(l, i as nat, text@) == Ok::<Seq<F64>, ErrorView>(numbers@),
        decreases list@.len() - i,
    {
        let ghost n: nat = (i + 1) as nat;
        assert(numbers_in_list(l, (n - 1) as nat, text@) is Ok);
        match number_of(&list[i]) {
            Some(x) => {
                numbers.push(x);
            },
            None => {
                proof {
                    assert(numbers_in_list(l, n, text@) is Err);
                    lemma_numbers_fail(l, n, list@.len(), text@);
                }
                return Err(RustySatError::invalid_input(text));
            },
        }
        i = i + 1;
    }
    Ok(numbers)
}

fn parse_quad(list: &Vec<YamlNode>, name: &str) -> (r: Result<Vec<F64>>)
    ensures
        match quad_in(trees(list@), name@) {
            Ok(s) => r is Ok && r->Ok_0@ == s && s.len() == 4,
            Err(e) => fails_with(r, e),
        },
{
    if list.len() != 4 {
        let text = join2(name, " must contain 4 numeric values");
        return Err(RustySatError::invalid_input(text.as_str()));
    }
    let text = join2(name, " must be numeric");
    parse_numbers(list, text.as_str())
}

fn parse_corner(keys: &Vec<YamlNode>, values: &Vec<YamlNode>, name: &str) -> (r: Result<Vec<F64>>)
    ensures
        match corner_of(trees(keys@), trees(values@), name@) {
            Ok(s) => r is Ok && r->Ok_0@ == s && s.len() == 2,
            Err(e) => fails_with(r, e),
        },
{
    let node = match required_value(keys, values, name, "area '", "area_extent") {
        Ok(v) => v,
        Err(e) => {
            return Err(e);
        },
    };
    match node.as_list() {
        Some(list) => {
            if list.len() != 2 {
                let text = join2(name, " must contain 2 numeric values");
                return Err(RustySatError::invalid_input(text.as_str()));
            }
            let text = join2(name, " must be numeric");
            parse_numbers(list, text.as_str())
        },
        None => {
            let text = join2(name, " must be a list");
            Err(RustySatError::invalid_input(text.as_str()))
        },
    }
}

fn parse_area_extent(node: &YamlNode) -> (r: Result<[F64; 4]>)
    ensures
        match extent_of_tree(node@) {
            Ok(s) => r is Ok && r->Ok_0@ == s,
            Err(e) => fails_with(r, e),
        },
{
    proof {
        lemma_node(*node);
    }
    match node {
        YamlNode::List(list) => {
            return match parse_quad(list, "area_extent") {
                Ok(v) => {
                    let extent = [v[0], v[1], v[2], v[3]];
                    assert(extent@ =~= v@);
                    Ok(extent)
                },
                Err(e) => Err(e),
            };
        },
        _ => {},
    }
    let (keys, values) = match node.as_table() {
        Some(table) => table,
        None => {
            return Err(RustySatError::invalid_input("area_extent must be a mapping or list"));
        },
    };
    let lower = match parse_corner(keys, values, "lower_left_xy") {
        Ok(v) => v,
        Err(e) => {
            return Err(e);
        },
    };
    let upper = match parse_corner(keys, values, "upper_right_xy") {
        Ok(v) => v,
        Err(e) => {
            return Err(e);
        },
    };
    let extent = [lower[0], lower[1], upper[0], upper[1]];
    assert(extent@ =~= lower@ + upper@);
    Ok(extent)
}

/// The area that a part of a document describes.
pub fn parse_area(area_id: &str, node: &YamlNode) -> (r: Result<AreaDefinition>)
    ensures
        shows(r, area_in_tree(area_id@, node@)),
{
    let (keys, values) = match node.as_table() {
        Some(table) => table,
        None => {
            let text = join3("area '", area_id, "' must be a mapping");
            return Err(RustySatError::invalid_input(text.as_str()));
        },
    };
    let description = match text_or(keys, values, "description", area_id) {
        Ok(v) => v,
        Err(e) => {
            return Err(e);
        },
    };
    let proj_id = match text_or(keys, values, "proj_id", area_id) {
        Ok(v) => v,
        Err(e) => {
            return Err(e);
        },
    };
    let projection_node = match required_value(keys, values, "projection", "area '", area_id) {
        Ok(v) => v,
        Err(e) => {
            return Err(e);
        },
    };
    let projection = match parse_projection(
        projection_node,
        "projection keys must be strings",
        "projection must be a mapping or PROJ string",
    ) {
        Ok(v) => v,
        Err(e) => {
            return Err(e);
        },
    };
    let shape_node = match required_value(keys, values, "shape", "area '", area_id) {
        Ok(v) => v,
        Err(e) => {
            return Err(e);
        },
    };
    let (height, width) = match parse_shape(shape_node) {
        Ok(v) => v,
        Err(e) => {
            return Err(e);
        },
    };
    let extent_node = match required_value(keys, values, "area_extent", "area '", area_id) {
        Ok(v) => v,
        Err(e) => {
            return Err(e);
        },
    };
    let extent = match parse_area_extent(extent_node) {
        Ok(v) => v,
        Err(e) => {
            return Err(e);
        },
    };
    AreaDefinition::from_parts(
        area_id,
        description.as_str(),
        proj_id.as_str(),
        projection,
        height,
        width,
        extent,
    )
}

proof fn lemma_areas_fail(keys: Seq<YamlTree>, values: Seq<YamlTree>, a: nat, b: nat)
    requires
        a <= b,
        areas_in_table(keys, values, a) is Err,
    ensures
        areas_in_table(keys, values, b) == areas_in_table(keys, values, a),
    decreases b - a,
{
    if a < b {
        lemma_areas_fail(keys, values, a, (b - 1) as nat);
    }
}

/// The areas of a document by their identifiers.
pub fn areas_in_document(node: &YamlNode) -> (r: Result<TextMap<AreaDefinition>>)
    ensures
        match areas_in_tree(node@) {
            Ok(m) => r is Ok && r->Ok_0@ == m,
            Err(e) => fails_with(r, e),
        },
{
    let (keys, values) = match node.as_table() {
        Some(table) => table,
        None => {
            return Err(RustySatError::invalid_input("area YAML root must be a mapping"));
        },
    };
    let ghost k = trees(keys@);
    let ghost v = trees(values@);
    let mut areas: TextMap<AreaDefinition> = TextMap::new();
    let mut i: usize = 0;
    while i < keys.len() && i < values.len()
        invariant
            i <= entries(k, v),
            k == trees(keys@),
            v == trees(values@),
            areas_in_tree(node@) == areas_in_table(k, v, entries(k, v)),
            areas_in_table(k, v, i as nat) == Ok::<Map<Seq<char>, AreaView>, ErrorView>(areas@),
        decreases keys@.len() - i,
    {
        let ghost n: nat = (i + 1) as nat;
        assert(areas_in_table(k, v, (n - 1) as nat) is Ok);
        let area_id = match keys[i].as_text() {
            Some(area_id) => area_id,
            None => {
                proof {
                    assert(areas_in_table(k, v, n) is Err);
                    lemma_areas_fail(k, v, n, entries(k, v));
                }
                return Err(RustySatError::invalid_input("area id keys must be strings"));
            },
        };
        match parse_area(area_id, &values[i]) {
            Ok(area) => {
                areas.insert(owned(area_id), area);
            },
            Err(e) => {
                proof {
                    assert(areas_in_table(k, v, n) is Err);
                    lemma_areas_fail(k, v, n, entries(k, v));
                }
                return Err(e);
            },
        }
        i = i + 1;
    }
    Ok(areas)
}

/// The areas of a text by their identifiers.
pub fn load_areas_from_str(yaml: &str) -> (r: Result<TextMap<AreaDefinition>>)
    ensures
        match areas_in_text(yaml@) {
            Ok(m) => r is Ok && r->Ok_0@ == m,
            Err(e) => fails_with(r, e),
        },
{
    match read_area_document(yaml) {
        Ok(node) => areas_in_document(&node),
        Err(e) => {
            let text = join2("invalid area YAML: ", e.as_str());
            Err(RustySatError::invalid_input(text.as_str()))
        },
    }
}

/// The area of a text with an identifier.
pub fn load_area_from_str(yaml: &str, area_id: &str) -> (r: Result<AreaDefinition>)
    ensures
        shows(r, area_among(areas_in_text(yaml@), area_id@)),
{
    match load_areas_from_str(yaml) {
        Ok(areas) => find_area(&areas, area_id),
        Err(e) => Err(e),
    }
}

/// One of some areas.
pub fn find_area(areas: &TextMap<AreaDefinition>, area_id: &str) -> (r: Result<AreaDefinition>)
    ensures
        shows(r, area_among(Ok(areas@), area_id@)),
{
    match areas.get(area_id) {
        Some(area) => Ok(area.copy()),
        None => {
            let text = join3("area definition '", area_id, "'");
            Err(RustySatError::not_found(text.as_str()))
        },
    }
}

/// An area that is read from a text has the identifier under which it stands there.
pub proof fn lemma_loaded_area_is_named(text: Seq<char>, id: Seq<char>)
    ensures
        match area_among(areas_in_text(text), id) {
            Ok(area) => area.id == id,
            Err(_) => true,
        },
{
    match area_document(text) {
        Ok(tree) => match untagged(tree) {
            YamlTree::Table(keys, values) => {
                lemma_areas_named(keys, values, entries(keys, values));
            },
            _ => {},
        },
        Err(_) => {},
    }
}

proof fn lemma_areas_named(keys: Seq<YamlTree>, values: Seq<YamlTree>, n: nat)
    ensures
        match areas_in_table(keys, values, n) {
            Ok(m) => forall|id: Seq<char>| #[trigger] m.contains_key(id) ==> m[id].id == id,
            Err(_) => true,
        },
    decreases n,
{
    if n > 0 {
        lemma_areas_named(keys, values, (n - 1) as nat);
    }
}

/// The parameters of a projection that a table writes, each under its own name.
pub proof fn lemma_written_projection(
    names: Seq<Seq<char>>,
    texts: Seq<Seq<char>>,
    keys: Seq<YamlTree>,
    values: Seq<YamlTree>,
    n: nat,
    keys_text: Seq<char>,
)
    requires
        n <= names.len(),
        names.len() == texts.len(),
        names.len() == keys.len(),
        names.len() == values.len(),
        names.no_duplicates(),
        forall|i: int| 0 <= i < names.len() ==> #[trigger] keys[i] == YamlTree::Text(names[i]),
        forall|i: int| 0 <= i < names.len() ==> #[trigger] values[i] == YamlTree::Text(texts[i]),
    ensures
        ({
            let read = texts_in_table(keys, values, n, keys_text);
            &&& read is Ok
            &&& forall|i: int|
                0 <= i < n ==> read->Ok_0.contains_key(#[trigger] names[i]) && read->Ok_0[names[i]]
                    == texts[i]
            &&& forall|k: Seq<char>| #[trigger]
                read->Ok_0.contains_key(k) ==> names.take(n as int).contains(k)
        }),
    decreases n,
{
    if n > 0 {
        lemma_written_projection(names, texts, keys, values, (n - 1) as nat, keys_text);
        assert(keys[n - 1] == YamlTree::Text(names[n - 1]));
        assert(values[n - 1] == YamlTree::Text(texts[n - 1]));
        let before = texts_in_table(keys, values, (n - 1) as nat, keys_text)->Ok_0;
        let read = texts_in_table(keys, values, n, keys_text);
        assert(read == Ok::<Map<Seq<char>, Seq<char>>, ErrorView>(
            before.insert(names[n - 1], texts[n - 1]),
        ));
        assert forall|k: Seq<char>| #[trigger] read->Ok_0.contains_key(k) implies names.take(
            n as int,
        ).contains(k) by {
            if k == names[n - 1] {
                assert(names.take(n as int)[n - 1] == k);
            } else {
                assert(before.contains_key(k));
                let first = names.take(n - 1);
                assert(first.contains(k));
                let j = choose|j: int| 0 <= j < first.len() && first[j] == k;
                assert(names.take(n as int)[j] == k);
            }
        }
    }
}

/// An area reads as it is written: with its description and its projection, its height and its
/// width, and its extent as the lower left and the upper right corner or as one list.
pub proof fn lemma_area_as_written(
    id: Seq<char>,
    keys: Seq<YamlTree>,
    values: Seq<YamlTree>,
    description: Option<Seq<char>>,
    proj_id: Option<Seq<char>>,
    projection: YamlTree,
    shape: (Seq<YamlTree>, Seq<YamlTree>),
    size: (YamlTree, YamlTree),
    height: usize,
    width: usize,
    extent: YamlTree,
    corners: (Seq<YamlTree>, Seq<YamlTree>),
    numbers: Seq<YamlTree>,
    bounds: Seq<F64>,
)
    requires
        description matches Some(text) ==> writes(
            keys,
            values,
            "description"@,
            YamlTree::Text(text),
        ),
        description is None ==> no_earlier(keys, keys.len() as int, "description"@),
        proj_id matches Some(text) ==> writes(keys, values, "proj_id"@, YamlTree::Text(text)),
        proj_id is None ==> no_earlier(keys, keys.len() as int, "proj_id"@),
        writes(keys, values, "projection"@, projection),
        projection is Text || projection is Table,
        projection_of(
            projection,
            "projection keys must be strings"@,
            "projection must be a mapping or PROJ string"@,
        ) is Ok,
        writes(keys, values, "shape"@, YamlTree::Table(shape.0, shape.1)),
        writes(shape.0, shape.1, "height"@, size.0),
        writes(shape.0, shape.1, "width"@, size.1),
        is_count(size.0, height),
        is_count(size.1, width),
        writes(keys, values, "area_extent"@, extent),
        numbers.len() == 4,
        bounds.len() == 4,
        forall|i: int| 0 <= i < 4 ==> is_value(#[trigger] numbers[i], bounds[i]),
        extent == YamlTree::List(numbers) || {
            &&& extent == YamlTree::Table(corners.0, corners.1)
            &&& writes(
                corners.0,
                corners.1,
                "lower_left_xy"@,
                YamlTree::List(seq![numbers[0], numbers[1]]),
            )
            &&& writes(
                corners.0,
                corners.1,
                "upper_right_xy"@,
                YamlTree::List(seq![numbers[2], numbers[3]]),
            )
        },
    ensures
        area_in_tree(id, YamlTree::Table(keys, values)) == area_made(
            id,
            match description {
                Some(text) => text,
                None => id,
            },
            match proj_id {
                Some(text) => text,
                None => id,
            },
            match projection {
                YamlTree::Text(text) => Map::empty().insert("proj4"@, text),
                _ => texts_in_table(
                    projection->Table_0,
                    projection->Table_1,
                    entries(projection->Table_0, projection->Table_1),
                    "projection keys must be strings"@,
                )->Ok_0,
            },
            height,
            width,
            bounds,
        ),
{
    let text_of = |t: Option<Seq<char>>| YamlTree::Text(t->Some_0);
    lemma_written_is_found(keys, values, "description"@, text_of(description));
    lemma_written_is_found(keys, values, "proj_id"@, text_of(proj_id));
    lemma_written_is_found(keys, values, "projection"@, projection);
    lemma_written_is_found(keys, values, "shape"@, YamlTree::Table(shape.0, shape.1));
    lemma_written_is_found(shape.0, shape.1, "height"@, size.0);
    lemma_written_is_found(shape.0, shape.1, "width"@, size.1);
    lemma_written_is_found(keys, values, "area_extent"@, extent);
    lemma_extent_as_written(extent, corners, numbers, bounds);
    assert(shape_of_tree(YamlTree::Table(shape.0, shape.1)) == Ok::<(usize, usize), ErrorView>(
        (height, width),
    ));
}

proof fn lemma_extent_as_written(
    extent: YamlTree,
    corners: (Seq<YamlTree>, Seq<YamlTree>),
    numbers: Seq<YamlTree>,
    bounds: Seq<F64>,
)
    requires
        numbers.len() == 4,
        bounds.len() == 4,
        forall|i: int| 0 <= i < 4 ==> is_value(#[trigger] numbers[i], bounds[i]),
        extent == YamlTree::List(numbers) || {
            &&& extent == YamlTree::Table(corners.0, corners.1)
            &&& writes(
                corners.0,
                corners.1,
                "lower_left_xy"@,
                YamlTree::List(seq![numbers[0], numbers[1]]),
            )
            &&& writes(
                corners.0,
                corners.1,
                "upper_right_xy"@,
                YamlTree::List(seq![numbers[2], numbers[3]]),
            )
        },
    ensures
        extent_of_tree(extent) == Ok::<Seq<F64>, ErrorView>(bounds),
{
    if extent == YamlTree::List(numbers) {
        lemma_numbers_as_written(numbers, bounds, 4, "area_extent"@ + " must be numeric"@);
        assert(bounds.take(4) =~= bounds);
    } else {
        let lower = seq![numbers[0], numbers[1]];
        let upper = seq![numbers[2], numbers[3]];
        lemma_written_is_found(corners.0, corners.1, "lower_left_xy"@, YamlTree::List(lower));
        lemma_written_is_found(corners.0, corners.1, "upper_right_xy"@, YamlTree::List(upper));
        let (a, b) = (seq![bounds[0], bounds[1]], seq![bounds[2], bounds[3]]);
        assert(is_value(numbers[0], bounds[0]) && is_value(numbers[1], bounds[1]) && is_value(
            numbers[2],
            bounds[2],
        ) && is_value(numbers[3], bounds[3]));
        lemma_numbers_as_written(lower, a, 2, "lower_left_xy"@ + " must be numeric"@);
        lemma_numbers_as_written(upper, b, 2, "upper_right_xy"@ + " must be numeric"@);
        assert(a.take(2) =~= a);
        assert(b.take(2) =~= b);
        assert(a + b =~= bounds);
    }
}

/// Numbers read as they are written.
pub proof fn lemma_numbers_as_written(
    list: Seq<YamlTree>,
    numbers: Seq<F64>,
    n: nat,
    text: Seq<char>,
)
    requires
        n <= list.len(),
        n <= numbers.len(),
        forall|i: int| 0 <= i < n ==> is_value(#[trigger] list[i], numbers[i]),
    ensures
        numbers_in_list(list, n, text) == Ok::<Seq<F64>, ErrorView>(numbers.take(n as int)),
    decreases n,
{
    if n > 0 {
        lemma_numbers_as_written(list, numbers, (n - 1) as nat, text);
        assert(is_value(list[n - 1], numbers[n - 1]));
        assert(numbers.take(n - 1).push(numbers[n - 1]) =~= numbers.take(n as int));
    } else {
        assert(numbers.take(0) =~= Seq::<F64>::empty());
    }
}

} // verus!
