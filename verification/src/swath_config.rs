//! Swaths that are described in YAML.

use crate::area_config::{
    entries, lemma_numbers_as_written, needed_entry, numbers_in_list, parse_numbers, parse_projection, projection_of,
    refused, required_value, Reading,
};
use crate::error::{fails_with, shows, ErrorView, Result, RustySatError};
use crate::number::F64;
use crate::swath::{lonlat_crs, swath_made, swath_with, SwathDefinition, SwathView};
use crate::text::{join2, join3, owned};
use crate::text_map::TextMap;
use crate::yaml::{
    entry_in, find_entry, is_value, lemma_node, lemma_written_is_found, no_earlier,
    read_swath_document, swath_document, trees, untagged, writes, YamlNode, YamlTree,
};
use vstd::prelude::*;
use vstd::utf8::encode_utf8;

verus! {

/// The most bytes that the text of swaths may have.
pub const MAX_SWATH_YAML_BYTES: usize = 8388608;

/// How deeply the parts of the document may lie in each other.
pub const MAX_SWATH_YAML_DEPTH: usize = 96;

/// Whether the parts of a document lie in each other no more than `room` levels deep.
pub open spec fn within_depth(tree: YamlTree, room: nat) -> bool
    decreases tree,
{
    match tree {
        YamlTree::List(items) => each_within(items, room),
        YamlTree::Table(keys, values) => each_within(keys, room) && each_within(values, room),
        YamlTree::Tagged(inner) => room > 0 && within_depth(*inner, (room - 1) as nat),
        _ => true,
    }
}

/// Whether there is room for parts one level down.
pub open spec fn each_within(items: Seq<YamlTree>, room: nat) -> bool
    decreases items,
{
    items.len() == 0 || (room > 0 && forall|i: int|
        0 <= i < items.len() ==> within_depth(#[trigger] items[i], (room - 1) as nat))
}

/// What the first `n` rows hold: their width, once there is one, and their numbers.
pub open spec fn rows_in(list: Seq<YamlTree>, n: nat, name: Seq<char>) -> Reading<
    (Option<usize>, Seq<F64>),
>
    decreases n,
{
    if n == 0 {
        Ok((None, Seq::empty()))
    } else {
        match rows_in(list, (n - 1) as nat, name) {
            Err(e) => Err(e),
            Ok((width, numbers)) => match untagged(list[n - 1]) {
                YamlTree::List(row) => if row.len() == 0 {
                    refused(name + " rows cannot be empty"@)
                } else if width is Some && width->Some_0 != row.len() {
                    refused(name + " rows must have consistent width"@)
                } else {
                    match numbers_in_list(row, row.len(), name + " values must be numeric"@) {
                        Err(e) => Err(e),
                        Ok(more) => Ok((Some(row.len() as usize), numbers + more)),
                    }
                },
                _ => refused(name + " rows must be lists"@),
            },
        }
    }
}

/// Whether every item is a list.
pub open spec fn all_lists(list: Seq<YamlTree>) -> bool {
    forall|i: int| 0 <= i < list.len() ==> (#[trigger] untagged(list[i])) is List
}

/// Positions along one axis, with the height and the width of their plane: rows of numbers,
/// or one row.
pub open spec fn positions_of(tree: YamlTree, name: Seq<char>) -> Reading<
    (usize, usize, Seq<F64>),
> {
    match untagged(tree) {
        YamlTree::List(list) => if list.len() == 0 {
            refused(name + " cannot be empty"@)
        } else if all_lists(list) {
            match rows_in(list, list.len(), name) {
                Err(e) => Err(e),
                Ok((width, numbers)) => Ok(
                    (
                        list.len() as usize,
                        match width {
                            Some(w) => w,
                            None => 0,
                        },
                        numbers,
                    ),
                ),
            }
        } else {
            match numbers_in_list(list, list.len(), name + " values must be numeric"@) {
                Err(e) => Err(e),
                Ok(numbers) => Ok((1, list.len() as usize, numbers)),
            }
        },
        _ => refused(name + " must be a list"@),
    }
}

/// The swath of positions with the reference system of a table, where it has one.
pub open spec fn swath_in_system(
    made: Reading<SwathView>,
    keys: Seq<YamlTree>,
    values: Seq<YamlTree>,
) -> Reading<SwathView> {
    match made {
        Err(e) => Err(e),
        Ok(swath) => match entry_in(keys, values, "crs"@) {
            None => Ok(swath),
            Some(t) => match projection_of(
                t,
                "CRS keys must be strings"@,
                "CRS must be a mapping or PROJ string"@,
            ) {
                Err(e) => Err(e),
                Ok(crs) => swath_with(swath, crs),
            },
        },
    }
}

/// Positions along an axis that a table has to have.
pub open spec fn axis_in(
    id: Seq<char>,
    keys: Seq<YamlTree>,
    values: Seq<YamlTree>,
    name: Seq<char>,
) -> Reading<(usize, usize, Seq<F64>)> {
    match needed_entry(keys, values, name, "swath '"@, id) {
        Err(e) => Err(e),
        Ok(t) => positions_of(t, name),
    }
}

/// The swath with an identifier.
pub open spec fn swath_in_tree(id: Seq<char>, tree: YamlTree) -> Reading<SwathView> {
    match untagged(tree) {
        YamlTree::Table(keys, values) => match axis_in(id, keys, values, "lons"@) {
            Err(e) => Err(e),
            Ok((height, width, lons)) => match axis_in(id, keys, values, "lats"@) {
                Err(e) => Err(e),
                Ok((lat_height, lat_width, lats)) => if height != lat_height || width
                    != lat_width {
                    refused("swath '"@ + id + "' lons and lats must have the same shape"@)
                } else {
                    swath_in_system(swath_made(height, width, lons, lats), keys, values)
                },
            },
        },
        _ => refused("swath '"@ + id + "' must be a mapping"@),
    }
}

/// The first `n` swaths by their identifiers.
pub open spec fn swaths_in_table(keys: Seq<YamlTree>, values: Seq<YamlTree>, n: nat) -> Reading<
    Map<Seq<char>, SwathView>,
>
    decreases n,
{
    if n == 0 {
        Ok(Map::empty())
    } else {
        match swaths_in_table(keys, values, (n - 1) as nat) {
            Err(e) => Err(e),
            Ok(m) => match untagged(keys[n - 1]) {
                YamlTree::Text(id) => match swath_in_tree(id, values[n - 1]) {
                    Err(e) => Err(e),
                    Ok(swath) => Ok(m.insert(id, swath)),
                },
                _ => refused("swath id keys must be strings"@),
            },
        }
    }
}

/// The swaths of a document.
pub open spec fn swaths_in_tree(tree: YamlTree) -> Reading<Map<Seq<char>, SwathView>> {
    if !within_depth(tree, MAX_SWATH_YAML_DEPTH as nat) {
        refused("swath YAML exceeds nesting depth limit of 96"@)
    } else {
        match untagged(tree) {
            YamlTree::Table(keys, values) => swaths_in_table(keys, values, entries(keys, values)),
            _ => refused("swath YAML root must be a mapping"@),
        }
    }
}

/// The swaths of a text.
pub open spec fn swaths_in_text(text: Seq<char>) -> Reading<Map<Seq<char>, SwathView>> {
    if encode_utf8(text).len() > MAX_SWATH_YAML_BYTES {
        refused("swath YAML exceeds size limit of 8388608 bytes"@)
    } else {
        match swath_document(text) {
            Err(e) => refused("invalid swath YAML: "@ + e),
            Ok(tree) => swaths_in_tree(tree),
        }
    }
}

/// One of some swaths.
pub open spec fn swath_among(swaths: Reading<Map<Seq<char>, SwathView>>, id: Seq<char>) -> Reading<
    SwathView,
> {
    match swaths {
        Err(e) => Err(e),
        Ok(m) => if m.contains_key(id) {
            Ok(m[id])
        } else {
            Err(ErrorView::NotFound("swath definition '"@ + id + "'"@))
        },
    }
}

proof fn lemma_each_within(items: Seq<YamlTree>, room: nat)
    ensures
        each_within(items, room) == (items.len() == 0 || (room > 0 && forall|i: int|
            0 <= i < items.len() ==> within_depth(#[trigger] items[i], (room - 1) as nat))),
{
    reveal_with_fuel(each_within, 2);
    reveal_with_fuel(within_depth, 2);
}

fn all_within(nodes: &Vec<YamlNode>, room: usize) -> (r: bool)
    ensures
        r == each_within(trees(nodes@), room as nat),
    decreases nodes, 0nat,
{
    proof {
        lemma_each_within(trees(nodes@), room as nat);
    }
    if nodes.len() == 0 {
        return true;
    }
    if room == 0 {
        return false;
    }
    let ghost items = trees(nodes@);
    let mut i: usize = 0;
    while i < nodes.len()
        invariant
            i <= nodes@.len(),
            nodes@.len() > 0,
            room > 0,
            items == trees(nodes@),
            each_within(items, room as nat) == (forall|i: int|
                0 <= i < items.len() ==> within_depth(#[trigger] items[i], (room - 1) as nat)),
            forall|j: int| 0 <= j < i ==> within_depth(#[trigger] items[j], (room - 1) as nat),
        decreases nodes@.len() - i,
    {
        let one = is_within(&nodes[i], room - 1);
        assert(items[i as int] == nodes@[i as int]@);
        if !one {
            assert(!within_depth(items[i as int], (room - 1) as nat));
            return false;
        }
        i = i + 1;
    }
    true
}

fn is_within(node: &YamlNode, room: usize) -> (r: bool)
    ensures
        r == within_depth(node@, room as nat),
    decreases node, 1nat,
{
    proof {
        lemma_node(*node);
    }
    match node {
        YamlNode::List(items) => all_within(items, room),
        YamlNode::Table(keys, values) => all_within(keys, room) && all_within(values, room),
        YamlNode::Tagged(inner) => room > 0 && is_within(inner, room - 1),
        _ => true,
    }
}

proof fn lemma_rows_fail(list: Seq<YamlTree>, a: nat, b: nat, name: Seq<char>)
    requires
        a <= b,
        rows_in(list, a, name) is Err,
    ensures
        rows_in(list, b, name) == rows_in(list, a, name),
    decreases b - a,
{
    if a < b {
        lemma_rows_fail(list, a, (b - 1) as nat, name);
    }
}

fn refuse(name: &str, what: &str) -> (r: RustySatError)
    ensures
        r@ == ErrorView::InvalidInput(name@ + what@),
{
    let text = join2(name, what);
    RustySatError::invalid_input(text.as_str())
}

fn parse_2d_coordinate_array(rows: &Vec<YamlNode>, name: &str) -> (r: Result<
    (usize, usize, Vec<F64>),
>)
    ensures
        match rows_in(trees(rows@), rows@.len(), name@) {
            Err(e) => fails_with(r, e),
            Ok((width, numbers)) => r is Ok && r->Ok_0.0 == rows@.len() && r->Ok_0.1 == (
            match width {
                Some(w) => w,
                None => 0,
            }) && r->Ok_0.2@ == numbers,
        },
{
    let ghost l = trees(rows@);
    let values_text = join2(name, " values must be numeric");
    let mut values: Vec<F64> = Vec::new();
    let mut width: Option<usize> = None;
    let mut i: usize = 0;
    while i < rows.len()
        invariant
            i <= rows@.len(),
            l == trees(rows@),
            values_text@ == name@ + " values must be numeric"@,
            rows_in(l, i as nat, name@) == Ok::<(Option<usize>, Seq<F64>), ErrorView>(
                (width, values@),
            ),
        decreases rows@.len() - i,
    {
        let ghost n: nat = (i + 1) as nat;
        assert(rows_in(l, (n - 1) as nat, name@) is Ok);
        let row = match rows[i].as_list() {
            Some(row) => row,
            None => {
                proof {
                    assert(rows_in(l, n, name@) is Err);
                    lemma_rows_fail(l, n, rows@.len(), name@);
                }
                return Err(refuse(name, " rows must be lists"));
            },
        };
        assert(untagged(l[i as int]) == YamlTree::List(trees(row@)));
        if row.len() == 0 {
            proof {
                assert(rows_in(l, n, name@) is Err);
                lemma_rows_fail(l, n, rows@.len(), name@);
            }
            return Err(refuse(name, " rows cannot be empty"));
        }
        match width {
            Some(w) => {
                if w != row.len() {
                    proof {
                        assert(rows_in(l, n, name@) is Err);
                        lemma_rows_fail(l, n, rows@.len(), name@);
                    }
                    return Err(refuse(name, " rows must have consistent width"));
                }
            },
            None => {},
        }
        match parse_numbers(row, values_text.as_str()) {
            Ok(more) => {
                width = Some(row.len());
                append_numbers(&mut values, &more);
            },
            Err(e) => {
                proof {
                    assert(rows_in(l, n, name@) is Err);
                    lemma_rows_fail(l, n, rows@.len(), name@);
                }
                return Err(e);
            },
        }
        i = i + 1;
    }
    let columns: usize = match width {
        Some(w) => w,
        None => 0,
    };
    Ok((rows.len(), columns, values))
}

fn append_numbers(values: &mut Vec<F64>, more: &Vec<F64>)
    ensures
        final(values)@ == old(values)@ + more@,
{
    let ghost before = values@;
    let mut i: usize = 0;
    assert(values@ =~= before + more@.take(0));
    while i < more.len()
        invariant
            i <= more@.len(),
            values@ == before + more@.take(i as int),
        decreases more@.len() - i,
    {
        values.push(more[i]);
        assert(values@ =~= before + more@.take(i + 1));
        i = i + 1;
    }
    assert(more@.take(more@.len() as int) =~= more@);
}

fn are_lists(nodes: &Vec<YamlNode>) -> (r: bool)
    ensures
        r == all_lists(trees(nodes@)),
{
    let mut i: usize = 0;
    while i < nodes.len()
        invariant
            i <= nodes@.len(),
            forall|j: int| 0 <= j < i ==> (#[trigger] untagged(trees(nodes@)[j])) is List,
        decreases nodes@.len() - i,
    {
        let found = nodes[i].as_list().is_some();
        assert(trees(nodes@)[i as int] == nodes@[i as int]@);
        if !found {
            assert(!(untagged(trees(nodes@)[i as int]) is List));
            return false;
        }
        i = i + 1;
    }
    true
}

fn parse_coordinate_array(node: &YamlNode, name: &str) -> (r: Result<(usize, usize, Vec<F64>)>)
    ensures
        match positions_of(node@, name@) {
            Err(e) => fails_with(r, e),
            Ok((height, width, numbers)) => r is Ok && r->Ok_0.0 == height && r->Ok_0.1 == width
                && r->Ok_0.2@ == numbers,
        },
{
    let rows = match node.as_list() {
        Some(rows) => rows,
        None => {
            return Err(refuse(name, " must be a list"));
        },
    };
    assert(untagged(node@) == YamlTree::List(trees(rows@)));
    if rows.len() == 0 {
        return Err(refuse(name, " cannot be empty"));
    }
    if are_lists(rows) {
        parse_2d_coordinate_array(rows, name)
    } else {
        let values_text = join2(name, " values must be numeric");
        match parse_numbers(rows, values_text.as_str()) {
            Ok(values) => {
                let width: usize = values.len();
                Ok((1, width, values))
            },
            Err(e) => Err(e),
        }
    }
}

fn parse_axis(keys: &Vec<YamlNode>, values: &Vec<YamlNode>, id: &str, name: &str) -> (r: Result<
    (usize, usize, Vec<F64>),
>)
    ensures
        match axis_in(id@, trees(keys@), trees(values@), name@) {
            Err(e) => fails_with(r, e),
            Ok((height, width, numbers)) => r is Ok && r->Ok_0.0 == height && r->Ok_0.1 == width
                && r->Ok_0.2@ == numbers,
        },
{
    match required_value(keys, values, name, "swath '", id) {
        Ok(node) => parse_coordinate_array(node, name),
        Err(e) => Err(e),
    }
}

/// The swath that a part of a document describes.
pub fn parse_swath(swath_id: &str, node: &YamlNode) -> (r: Result<SwathDefinition>)
    ensures
        shows(r, swath_in_tree(swath_id@, node@)),
{
    let (keys, values) = match node.as_table() {
        Some(table) => table,
        None => {
            let text = join3("swath '", swath_id, "' must be a mapping");
            return Err(RustySatError::invalid_input(text.as_str()));
        },
    };
    let (height, width, lons) = match parse_axis(keys, values, swath_id, "lons") {
        Ok(v) => v,
        Err(e) => {
            return Err(e);
        },
    };
    let (lat_height, lat_width, lats) = match parse_axis(keys, values, swath_id, "lats") {
        Ok(v) => v,
        Err(e) => {
            return Err(e);
        },
    };
    if height != lat_height || width != lat_width {
        let text = join3("swath '", swath_id, "' lons and lats must have the same shape");
        return Err(RustySatError::invalid_input(text.as_str()));
    }
    let swath = match SwathDefinition::from_lonlats(height, width, lons, lats) {
        Ok(v) => v,
        Err(e) => {
            return Err(e);
        },
    };
    match find_entry(keys, values, "crs") {
        Some(crs_node) => match parse_projection(
            crs_node,
            "CRS keys must be strings",
            "CRS must be a mapping or PROJ string",
        ) {
            Ok(crs) => swath.with_crs(crs),
            Err(e) => Err(e),
        },
        None => Ok(swath),
    }
}

proof fn lemma_swaths_fail(keys: Seq<YamlTree>, values: Seq<YamlTree>, a: nat, b: nat)
    requires
        a <= b,
        swaths_in_table(keys, values, a) is Err,
    ensures
        swaths_in_table(keys, values, b) == swaths_in_table(keys, values, a),
    decreases b - a,
{
    if a < b {
        lemma_swaths_fail(keys, values, a, (b - 1) as nat);
    }
}

/// The swaths of a document by their identifiers.
pub fn swaths_in_document(node: &YamlNode) -> (r: Result<TextMap<SwathDefinition>>)
    ensures
        match swaths_in_tree(node@) {
            Ok(m) => r is Ok && r->Ok_0@ == m,
            Err(e) => fails_with(r, e),
        },
{
    if !is_within(node, MAX_SWATH_YAML_DEPTH) {
        return Err(RustySatError::invalid_input("swath YAML exceeds nesting depth limit of 96"));
    }
    let (keys, values) = match node.as_table() {
        Some(table) => table,
        None => {
            return Err(RustySatError::invalid_input("swath YAML root must be a mapping"));
        },
    };
    let ghost k = trees(keys@);
    let ghost v = trees(values@);
    let mut swaths: TextMap<SwathDefinition> = TextMap::new();
    let mut i: usize = 0;
    while i < keys.len() && i < values.len()
        invariant
            i <= entries(k, v),
            k == trees(keys@),
            v == trees(values@),
            swaths_in_tree(node@) == swaths_in_table(k, v, entries(k, v)),
            swaths_in_table(k, v, i as nat) == Ok::<Map<Seq<char>, SwathView>, ErrorView>(swaths@),
        decreases keys@.len() - i,
    {
        let ghost n: nat = (i + 1) as nat;
        assert(swaths_in_table(k, v, (n - 1) as nat) is Ok);
        let swath_id = match keys[i].as_text() {
            Some(swath_id) => swath_id,
            None => {
                proof {
                    assert(swaths_in_table(k, v, n) is Err);
                    lemma_swaths_fail(k, v, n, entries(k, v));
                }
                return Err(RustySatError::invalid_input("swath id keys must be strings"));
            },
        };
        match parse_swath(swath_id, &values[i]) {
            Ok(swath) => {
                swaths.insert(owned(swath_id), swath);
            },
            Err(e) => {
                proof {
                    assert(swaths_in_table(k, v, n) is Err);
                    lemma_swaths_fail(k, v, n, entries(k, v));
                }
                return Err(e);
            },
        }
        i = i + 1;
    }
    Ok(swaths)
}

/// The swaths of a text by their identifiers.
pub fn load_swaths_from_str(yaml: &str) -> (r: Result<TextMap<SwathDefinition>>)
    ensures
        match swaths_in_text(yaml@) {
            Ok(m) => r is Ok && r->Ok_0@ == m,
            Err(e) => fails_with(r, e),
        },
{
    if yaml.as_bytes().len() > MAX_SWATH_YAML_BYTES {
        return Err(RustySatError::invalid_input("swath YAML exceeds size limit of 8388608 bytes"));
    }
    match read_swath_document(yaml) {
        Ok(node) => swaths_in_document(&node),
        Err(e) => Err(refuse("invalid swath YAML: ", e.as_str())),
    }
}

/// The swath of a text with an identifier.
pub fn load_swath_from_str(yaml: &str, swath_id: &str) -> (r: Result<SwathDefinition>)
    ensures
        shows(r, swath_among(swaths_in_text(yaml@), swath_id@)),
{
    match load_swaths_from_str(yaml) {
        Ok(swaths) => find_swath(&swaths, swath_id),
        Err(e) => Err(e),
    }
}

/// One of some swaths.
pub fn find_swath(swaths: &TextMap<SwathDefinition>, swath_id: &str) -> (r: Result<
    SwathDefinition,
>)
    ensures
        shows(r, swath_among(Ok(swaths@), swath_id@)),
{
    match swaths.get(swath_id) {
        Some(swath) => Ok(swath.copy()),
        None => {
            let text = join3("swath definition '", swath_id, "'");
            Err(RustySatError::not_found(text.as_str()))
        },
    }
}

/// A text with more bytes than the limit gives no swath, whatever it holds.
pub proof fn lemma_large_text_is_refused(text: Seq<char>, id: Seq<char>)
    requires
        encode_utf8(text).len() > MAX_SWATH_YAML_BYTES,
    ensures
        swath_among(swaths_in_text(text), id) is Err,
{
}

/// Whether a swath has positions for each of its pixels and a reference system.
pub open spec fn is_complete(s: SwathView) -> bool {
    &&& s.height > 0
    &&& s.width > 0
    &&& s.lons is Some && s.lons->Some_0.len() == s.height * s.width
    &&& s.lats is Some && s.lats->Some_0.len() == s.height * s.width
    &&& s.crs != Map::<Seq<char>, Seq<char>>::empty()
}

proof fn lemma_swaths_complete(keys: Seq<YamlTree>, values: Seq<YamlTree>, n: nat)
    ensures
        swaths_in_table(keys, values, n) matches Ok(m) ==> forall|id: Seq<char>| #[trigger]
            m.contains_key(id) ==> is_complete(m[id]),
    decreases n,
{
    if n > 0 {
        lemma_swaths_complete(keys, values, (n - 1) as nat);
        assert(lonlat_crs().contains_key("ellps"@));
        assert(lonlat_crs() != Map::<Seq<char>, Seq<char>>::empty());
    }
}

/// Every swath that a text gives has positions for each of its pixels and a reference
/// system.
pub proof fn lemma_loaded_swath_is_complete(text: Seq<char>, id: Seq<char>)
    ensures
        swath_among(swaths_in_text(text), id) matches Ok(s) ==> is_complete(s),
{
    if encode_utf8(text).len() <= MAX_SWATH_YAML_BYTES && swath_document(text) is Ok {
        let tree = swath_document(text)->Ok_0;
        if within_depth(tree, MAX_SWATH_YAML_DEPTH as nat) {
            match untagged(tree) {
                YamlTree::Table(keys, values) => {
                    lemma_swaths_complete(keys, values, entries(keys, values));
                },
                _ => {},
            }
        }
    }
}

/// Whether a part of a document writes a plane of numbers as its rows.
pub open spec fn writes_rows(
    tree: YamlTree,
    rows: Seq<Seq<YamlTree>>,
    numbers: Seq<Seq<F64>>,
    width: nat,
) -> bool {
    &&& tree is List
    &&& tree->List_0.len() == rows.len()
    &&& numbers.len() == rows.len()
    &&& forall|y: int|
        0 <= y < rows.len() ==> #[trigger] tree->List_0[y] == YamlTree::List(rows[y])
            && rows[y].len() == width && numbers[y].len() == width
    &&& forall|y: int, x: int|
        0 <= y < rows.len() && 0 <= x < width ==> is_value(#[trigger] rows[y][x], numbers[y][x])
}

proof fn lemma_rows_as_written(
    tree: YamlTree,
    rows: Seq<Seq<YamlTree>>,
    numbers: Seq<Seq<F64>>,
    width: nat,
    n: nat,
    name: Seq<char>,
) -> (flat: Seq<F64>)
    requires
        writes_rows(tree, rows, numbers, width),
        0 < width <= usize::MAX,
        n <= rows.len(),
    ensures
        rows_in(tree->List_0, n, name) == Ok::<(Option<usize>, Seq<F64>), ErrorView>(
            (
                if n == 0 {
                    None
                } else {
                    Some(width as usize)
                },
                flat,
            ),
        ),
        flat.len() == n * width,
        forall|y: int, x: int|
            0 <= y < n && 0 <= x < width ==> flat[y * width + x] == #[trigger] numbers[y][x],
    decreases n,
{
    if n == 0 {
        Seq::empty()
    } else {
        let before = lemma_rows_as_written(tree, rows, numbers, width, (n - 1) as nat, name);
        let row = rows[n - 1];
        assert(tree->List_0[n - 1] == YamlTree::List(row));
        assert forall|x: int| 0 <= x < width implies is_value(#[trigger] row[x], numbers[n - 1][x]) by {
            assert(is_value(rows[n - 1][x], numbers[n - 1][x]));
        }
        lemma_numbers_as_written(row, numbers[n - 1], width, name + " values must be numeric"@);
        assert(numbers[n - 1].take(width as int) =~= numbers[n - 1]);
        let flat = before + numbers[n - 1];
        assert((n - 1) * width + width == n * width) by (nonlinear_arith);
        assert forall|y: int, x: int| 0 <= y < n && 0 <= x < width implies flat[y * width + x]
            == #[trigger] numbers[y][x] by {
            if y < n - 1 {
                assert(0 <= y * width + x < (n - 1) * width) by (nonlinear_arith)
                    requires
                        0 <= y < n - 1,
                        0 <= x < width,
                ;
                assert(before[y * width + x] == numbers[y][x]);
            } else {
                assert(flat[(n - 1) * width + x] == numbers[n - 1][x]);
            }
        }
        flat
    }
}

/// A swath reads as it is written: its height is the number of rows, its width the length of each,
/// and the position of a pixel is that in its row and column. It refers to longitude and latitude
/// where no system is written, and else to the text of the system.
pub proof fn lemma_swath_as_written(
    id: Seq<char>,
    keys: Seq<YamlTree>,
    values: Seq<YamlTree>,
    lons: YamlTree,
    lats: YamlTree,
    lon_rows: Seq<Seq<YamlTree>>,
    lat_rows: Seq<Seq<YamlTree>>,
    lon_numbers: Seq<Seq<F64>>,
    lat_numbers: Seq<Seq<F64>>,
    width: usize,
    crs: Option<Seq<char>>,
)
    requires
        writes(keys, values, "lons"@, lons),
        writes(keys, values, "lats"@, lats),
        writes_rows(lons, lon_rows, lon_numbers, width as nat),
        writes_rows(lats, lat_rows, lat_numbers, width as nat),
        width > 0,
        0 < lon_rows.len() <= usize::MAX,
        lat_rows.len() == lon_rows.len(),
        crs matches Some(text) ==> writes(keys, values, "crs"@, YamlTree::Text(text)),
        crs is None ==> no_earlier(keys, keys.len() as int, "crs"@),
    ensures
        ({
            let read = swath_in_tree(id, YamlTree::Table(keys, values));
            &&& read is Ok
            &&& read->Ok_0.height == lon_rows.len()
            &&& read->Ok_0.width == width
            &&& read->Ok_0.lons is Some
            &&& read->Ok_0.lats is Some
            &&& forall|y: int, x: int|
                0 <= y < lon_rows.len() && 0 <= x < width ==> read->Ok_0.lons->Some_0[y * width + x]
                    == #[trigger] lon_numbers[y][x]
            &&& forall|y: int, x: int|
                0 <= y < lon_rows.len() && 0 <= x < width ==> read->Ok_0.lats->Some_0[y * width + x]
                    == #[trigger] lat_numbers[y][x]
            &&& crs is None ==> read->Ok_0.crs["proj"@] == "longlat"@ && read->Ok_0.crs["ellps"@]
                == "WGS84"@
            &&& crs matches Some(text) ==> read->Ok_0.crs == Map::<
                Seq<char>,
                Seq<char>,
            >::empty().insert("proj4"@, text)
        }),
{
    reveal_strlit("proj");
    reveal_strlit("ellps");
    assert("proj"@.len() != "ellps"@.len());
    let n = lon_rows.len();
    let w = width as nat;
    let a = lemma_rows_as_written(lons, lon_rows, lon_numbers, w, n, "lons"@);
    let b = lemma_rows_as_written(lats, lat_rows, lat_numbers, w, n, "lats"@);
    lemma_written_is_found(keys, values, "lons"@, lons);
    lemma_written_is_found(keys, values, "lats"@, lats);
    lemma_written_is_found(keys, values, "crs"@, YamlTree::Text(crs->Some_0));
    assert forall|i: int| 0 <= i < n implies (#[trigger] untagged(lons->List_0[i])) is List by {
        assert(lons->List_0[i] == YamlTree::List(lon_rows[i]));
    }
    assert forall|i: int| 0 <= i < n implies (#[trigger] untagged(lats->List_0[i])) is List by {
        assert(lats->List_0[i] == YamlTree::List(lat_rows[i]));
    }
    assert(positions_of(lons, "lons"@) == Ok::<(usize, usize, Seq<F64>), ErrorView>(
        (n as usize, width, a),
    ));
    assert(positions_of(lats, "lats"@) == Ok::<(usize, usize, Seq<F64>), ErrorView>(
        (n as usize, width, b),
    ));
    if let Some(text) = crs {
        let m = Map::<Seq<char>, Seq<char>>::empty().insert("proj4"@, text);
        assert(m.contains_key("proj4"@));
        assert(m != Map::<Seq<char>, Seq<char>>::empty());
    }
}

} // verus!
