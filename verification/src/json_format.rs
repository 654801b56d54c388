//! Sorting JSON: an array of values, or one value on each line.

use crate::config::{texts, Config};
use crate::diag::push_bytes;
use crate::index::{ints, ix};
use crate::input::{read_all, split, split_lines, Input};
use crate::json_number::{
    double_view, doubles_in_order, integer_and_double, integer_view, integers_in_order, JsonNumber,
    NumberView,
};
use crate::lex::{compare_bytes, lex, lex_order, lex_order_is_total};
use crate::lines::{arrange, arranged, distinct, lines_of, views, LineItems};
use crate::order::{
    directed, flip, int_order, is_total_order, lemma_directed_is_total, lemma_pullback_is_total,
    lemma_rank_order_is_total, lemma_tie_broken_is_total, tie_broken,
};
use crate::outcome::{record_stats, succeed, success, Run, RunError, Stats};
use crate::parallel::ItemOrder;
use crate::text::{lead, lemma_lead, NEWLINE};
use crate::words::{char_other_than, char_position, chars_of};
use std::cmp::Ordering;
use vstd::prelude::*;
use vstd::string::StrSliceExecFns;
use vstd::utf8::encode_utf8;

verus! {

/// `serde_json::Value`: a value that was read.
#[verifier::external_type_specification]
#[verifier::external_body]
pub struct ExJsonValue(serde_json::Value);

/// What a JSON value is.
pub enum JsonNode {
    /// `null`.
    Null,
    /// `true` or `false`.
    Bool(bool),
    /// A number.
    Number(JsonNumber),
    /// A string.
    Text(Seq<char>),
    /// An array of values.
    Array(Seq<JsonTree>),
    /// Values with names.
    Object(Map<Seq<char>, JsonTree>),
}

/// A JSON value and how it is written without white space.
pub struct JsonTree {
    /// The value as text.
    pub text: Seq<char>,
    /// What it is.
    pub node: JsonNode,
}

/// What a value that was read holds.
pub uninterp spec fn json_tree(value: serde_json::Value) -> JsonTree;

/// The value that text stands for; `None` where it is not JSON.
pub uninterp spec fn parsed_json(text: Seq<u8>) -> Option<JsonTree>;

/// An array of the values with these texts, written over several lines.
pub uninterp spec fn pretty_json(texts: Seq<Seq<char>>) -> Seq<char>;

/// Calls serde_json's `from_slice`: the value that text stands for. The result has
/// a name; nothing more is claimed of it here.
#[verifier::external_body]
pub(crate) fn parse_json(text: &[u8]) -> (r: Result<serde_json::Value, serde_json::Error>)
    ensures
        match r {
            Ok(v) => parsed_json(text@) == Some(json_tree(v)),
            Err(_) => parsed_json(text@) is None,
        },
{
    serde_json::from_slice(text)
}

/// What values hold.
pub open spec fn trees(values: Seq<serde_json::Value>) -> Seq<JsonTree> {
    values.map_values(|v: serde_json::Value| json_tree(v))
}

/// Takes a serde_json `Value` apart: the elements of an array, nothing of any other
/// value.
#[verifier::external_body]
pub(crate) fn array_elements(value: serde_json::Value) -> (r: Option<Vec<serde_json::Value>>)
    ensures
        match r {
            Some(v) => json_tree(value).node == JsonNode::Array(trees(v@)),
            None => !(json_tree(value).node is Array),
        },
{
    match value {
        serde_json::Value::Array(a) => Some(a),
        _ => None,
    }
}

/// The member of a value with a name: only objects have members.
pub open spec fn member(tree: JsonTree, name: Seq<char>) -> Option<JsonTree> {
    match tree.node {
        JsonNode::Object(m) => if m.dom().contains(name) {
            Some(m[name])
        } else {
            None
        },
        _ => None,
    }
}

/// Calls serde_json's `Value::get` with a name: the member of an object with that
/// name; nothing where there is none, or where the value is no object.
#[verifier::external_body]
pub(crate) fn json_member<'a>(value: &'a serde_json::Value, name: &str) -> (r: Option<
    &'a serde_json::Value,
>)
    ensures
        match r {
            Some(v) => member(json_tree(*value), name@) == Some(json_tree(*v)),
            None => member(json_tree(*value), name@) is None,
        },
{
    value.get(name)
}

/// What a JSON value is, as far as it is compared.
#[derive(Debug)]
pub enum JsonScalar {
    /// `null`.
    Null,
    /// `true` or `false`.
    Bool(bool),
    /// A number.
    Number(JsonNumber),
    /// A string.
    Text(String),
    /// An array or an object, as text.
    Other(String),
}

/// Tells the variants of a serde_json `Value` apart. A number is read with
/// `Number::as_i64`, `Number::as_u64` and `Number::as_f64`: an integer that fits into
/// 64 bits is given as it is, any other number as a double precision value. An array or an object is written with `to_string`, which
/// leaves out white space.
#[verifier::external_body]
pub(crate) fn json_scalar(value: &serde_json::Value) -> (r: JsonScalar)
    ensures
        match (r, json_tree(*value).node) {
            (JsonScalar::Null, JsonNode::Null) => true,
            (JsonScalar::Bool(a), JsonNode::Bool(b)) => a == b,
            (JsonScalar::Number(a), JsonNode::Number(b)) => a == b,
            (JsonScalar::Text(a), JsonNode::Text(b)) => a@ == b,
            (JsonScalar::Other(a), JsonNode::Array(_)) => a@ == json_tree(*value).text,
            (JsonScalar::Other(a), JsonNode::Object(_)) => a@ == json_tree(*value).text,
            _ => false,
        },
{
    match value {
        serde_json::Value::Null => JsonScalar::Null,
        serde_json::Value::Bool(b) => JsonScalar::Bool(*b),
        serde_json::Value::Number(n) => JsonScalar::Number(
            JsonNumber {
                signed: n.as_i64(),
                unsigned: n.as_u64(),
                double: n.as_f64().map(|x| x.to_bits()),
            },
        ),
        serde_json::Value::String(s) => JsonScalar::Text(s.clone()),
        other => JsonScalar::Other(other.to_string()),
    }
}

/// Calls serde_json's `to_string`: a value as text without white space. Writing a
/// value to memory does not fail: only the names of its members are map keys, and
/// they are strings.
#[verifier::external_body]
pub(crate) fn compact_json(value: &serde_json::Value) -> (r: Result<String, serde_json::Error>)
    ensures
        r is Ok,
        r matches Ok(s) ==> s@ == json_tree(*value).text,
{
    serde_json::to_string(value)
}

/// The texts of values.
pub open spec fn value_texts(values: Seq<&serde_json::Value>) -> Seq<Seq<char>> {
    values.map_values(|v: &serde_json::Value| json_tree(*v).text)
}

/// Calls serde_json's `to_string_pretty` on an array of values, which does not fail
/// either. The result has a name; nothing more is claimed of it here.
#[verifier::external_body]
pub(crate) fn pretty_array(values: &Vec<&serde_json::Value>) -> (r: Result<String, serde_json::Error>)
    ensures
        r is Ok,
        r matches Ok(s) ==> s@ == pretty_json(value_texts(values@)),
{
    serde_json::to_string_pretty(values)
}

/// The bits of a double precision value that is not a number.
pub const NAN_BITS: u64 = 0x7ff8_0000_0000_0000;

/// A key of a JSON value: null, then booleans, numbers, strings, and anything else.
pub enum KeyView {
    /// `null`, or nothing.
    Null,
    /// `false` or `true`.
    Bool(bool),
    /// A number.
    Num(NumberView),
    /// A string.
    Str(Seq<char>),
    /// An array or an object, as text.
    Other(Seq<char>),
}

/// The place of a kind of key among the kinds.
pub open spec fn kind_rank(k: KeyView) -> int {
    match k {
        KeyView::Null => 0,
        KeyView::Bool(_) => 1,
        KeyView::Num(_) => 2,
        KeyView::Str(_) => 3,
        KeyView::Other(_) => 4,
    }
}

/// What two keys of the same kind are compared by.
pub open spec fn key_ints(k: KeyView) -> Seq<int> {
    match k {
        KeyView::Null => Seq::empty(),
        KeyView::Bool(b) => seq![if b { 1int } else { 0int }],
        KeyView::Num(n) => seq![n.value, if n.minus_zero { 0int } else { 1int }],
        KeyView::Str(s) => ints(encode_utf8(s)),
        KeyView::Other(s) => ints(encode_utf8(s)),
    }
}

/// The order of two keys: by kind, then within the kind.
pub open spec fn jkey_order(a: KeyView, b: KeyView) -> Ordering {
    tie_broken(int_order(kind_rank(a), kind_rank(b)), lex_order(key_ints(a), key_ints(b)))
}

/// A comparable key of a JSON value.
#[derive(Debug)]
pub enum JKey {
    /// `null`, or nothing.
    Null,
    /// `false` or `true`.
    Bool(bool),
    /// A number that is no integer of 64 bits, as the bits of a double precision
    /// value.
    Num(u64),
    /// An integer.
    Int(i128),
    /// A string.
    Str(String),
    /// An array or an object, as text.
    Other(String),
}

impl View for JKey {
    type V = KeyView;

    open spec fn view(&self) -> KeyView {
        match self {
            JKey::Null => KeyView::Null,
            JKey::Bool(b) => KeyView::Bool(*b),
            JKey::Num(n) => KeyView::Num(double_view(*n)),
            JKey::Int(n) => KeyView::Num(integer_view(*n as int)),
            JKey::Str(s) => KeyView::Str(s@),
            JKey::Other(s) => KeyView::Other(s@),
        }
    }
}

/// The ordering of two things of which it is known whether the first comes before
/// the second and whether they are the same.
fn ordering(before: bool, same: bool) -> (o: Ordering)
    ensures
        before && !same ==> o == Ordering::Less,
        same ==> o == Ordering::Equal,
        !before && !same ==> o == Ordering::Greater,
{
    if same {
        Ordering::Equal
    } else if before {
        Ordering::Less
    } else {
        Ordering::Greater
    }
}

impl JKey {
    /// The place of the key's kind among the kinds.
    pub fn rank(&self) -> (r: u8)
        ensures
            r == kind_rank(self@),
    {
        match self {
            JKey::Null => 0,
            JKey::Bool(_) => 1,
            JKey::Num(_) => 2,
            JKey::Int(_) => 2,
            JKey::Str(_) => 3,
            JKey::Other(_) => 4,
        }
    }

    /// Compares two keys: by kind, then within the kind.
    pub fn cmp(&self, other: &JKey) -> (o: Ordering)
        ensures
            o == jkey_order(self@, other@),
    {
        proof {
            reveal_with_fuel(lex_order, 4);
        }
        match (self, other) {
            (JKey::Bool(a), JKey::Bool(b)) => if *a == *b {
                Ordering::Equal
            } else if *b {
                Ordering::Less
            } else {
                Ordering::Greater
            },
            (JKey::Num(a), JKey::Num(b)) => {
                let (before, same) = doubles_in_order(*a, *b);
                ordering(before, same)
            },
            (JKey::Int(a), JKey::Int(b)) => {
                let (before, same) = integers_in_order(*a, *b);
                ordering(before, same)
            },
            (JKey::Int(a), JKey::Num(b)) => {
                let (before, same) = integer_and_double(*a, *b);
                ordering(before, same)
            },
            (JKey::Num(a), JKey::Int(b)) => {
                let (behind, same) = integer_and_double(*b, *a);
                ordering(!behind && !same, same)
            },
            (JKey::Str(a), JKey::Str(b)) => compare_bytes(
                a.as_str().as_bytes(),
                b.as_str().as_bytes(),
            ),
            (JKey::Other(a), JKey::Other(b)) => compare_bytes(
                a.as_str().as_bytes(),
                b.as_str().as_bytes(),
            ),
            _ => {
                let x: u8 = self.rank();
                let y: u8 = other.rank();
                if x < y {
                    Ordering::Less
                } else if x > y {
                    Ordering::Greater
                } else {
                    Ordering::Equal
                }
            },
        }
    }
}

/// Numbers are ordered by their values; only negative zero and zero differ without
/// differing in value.
pub proof fn numbers_order_by_value(a: NumberView, b: NumberView)
    ensures
        a.value != b.value ==> jkey_order(KeyView::Num(a), KeyView::Num(b)) == int_order(
            a.value,
            b.value,
        ),
        a.value == b.value && a.minus_zero == b.minus_zero ==> jkey_order(
            KeyView::Num(a),
            KeyView::Num(b),
        ) == Ordering::Equal,
{
    reveal_with_fuel(lex_order, 4);
}

/// The order of keys is total.
pub proof fn jkey_order_is_total()
    ensures
        is_total_order(|a: KeyView, b: KeyView| jkey_order(a, b)),
{
    let kinds = |a: KeyView, b: KeyView| int_order(kind_rank(a), kind_rank(b));
    let within = |a: KeyView, b: KeyView| lex_order(key_ints(a), key_ints(b));
    lemma_rank_order_is_total(kinds, |a: KeyView| kind_rank(a));
    lex_order_is_total();
    lemma_pullback_is_total(within, lex(), |a: KeyView| key_ints(a));
    lemma_tie_broken_is_total(|a: KeyView, b: KeyView| jkey_order(a, b), kinds, within);
}

/// What a path leads to in a value; `None` where a name on it is missing.
pub open spec fn follow(tree: JsonTree, path: Seq<Seq<char>>) -> Option<JsonTree>
    decreases path.len(),
{
    if path.len() == 0 {
        Some(tree)
    } else {
        match member(tree, path[0]) {
            Some(t) => follow(t, path.drop_first()),
            None => None,
        }
    }
}

/// What a number is compared by: its value, exactly.
pub open spec fn number_view(n: JsonNumber) -> NumberView {
    match (n.signed, n.unsigned, n.double) {
        (Some(i), _, _) => integer_view(i as int),
        (None, Some(u), _) => integer_view(u as int),
        (None, None, Some(bits)) => double_view(bits),
        (None, None, None) => double_view(NAN_BITS),
    }
}

fn number_key(n: JsonNumber) -> (k: JKey)
    ensures
        k@ == KeyView::Num(number_view(n)),
{
    match (n.signed, n.unsigned, n.double) {
        (Some(i), _, _) => JKey::Int(i as i128),
        (None, Some(u), _) => JKey::Int(u as i128),
        (None, None, Some(bits)) => JKey::Num(bits),
        (None, None, None) => JKey::Num(NAN_BITS),
    }
}

/// The key of a value.
pub open spec fn key_of_tree(tree: JsonTree) -> KeyView {
    match tree.node {
        JsonNode::Null => KeyView::Null,
        JsonNode::Bool(b) => KeyView::Bool(b),
        JsonNode::Number(n) => KeyView::Num(number_view(n)),
        JsonNode::Text(s) => KeyView::Str(s),
        JsonNode::Array(_) => KeyView::Other(tree.text),
        JsonNode::Object(_) => KeyView::Other(tree.text),
    }
}

/// The key that a path leads to; null where it leads to nothing.
pub open spec fn key_at(tree: JsonTree, path: Seq<Seq<char>>) -> KeyView {
    match follow(tree, path) {
        Some(t) => key_of_tree(t),
        None => KeyView::Null,
    }
}

/// The key that a path leads to in a value.
pub fn json_key(value: &serde_json::Value, path: &Vec<String>) -> (k: JKey)
    ensures
        k@ == key_at(json_tree(*value), texts(path@)),
{
    let ghost names = texts(path@);
    let mut cur: &serde_json::Value = value;
    let mut i: usize = 0;
    assert(names.skip(0) =~= names);
    while i < path.len()
        invariant
            i <= path@.len(),
            names == texts(path@),
            follow(json_tree(*value), names) == follow(json_tree(*cur), names.skip(i as int)),
        decreases path@.len() - i,
    {
        proof {
            assert(names.skip(i as int)[0] == path@[i as int]@);
            assert(names.skip(i as int).drop_first() =~= names.skip(i + 1));
        }
        match json_member(cur, path[i].as_str()) {
            Some(v) => {
                cur = v;
            },
            None => {
                return JKey::Null;
            },
        }
        i += 1;
    }
    match json_scalar(cur) {
        JsonScalar::Null => JKey::Null,
        JsonScalar::Bool(b) => JKey::Bool(b),
        JsonScalar::Number(n) => number_key(n),
        JsonScalar::Text(s) => JKey::Str(s),
        JsonScalar::Other(s) => JKey::Other(s),
    }
}

/// The names between the dots of a path, empty ones left out.
pub open spec fn path_names(s: Seq<char>) -> Seq<Seq<char>>
    decreases s.len(),
{
    let n = lead(s, char_other_than('.'));
    if n < 0 || n >= s.len() {
        if s.len() == 0 {
            Seq::empty()
        } else {
            seq![s]
        }
    } else if n == 0 {
        path_names(s.skip(1))
    } else {
        seq![s.take(n)] + path_names(s.skip(n + 1))
    }
}

/// The paths with at least one name that keys describe.
pub open spec fn named_paths(specs: Seq<Seq<char>>) -> Seq<Seq<Seq<char>>>
    decreases specs.len(),
{
    if specs.len() == 0 {
        Seq::empty()
    } else {
        let before = named_paths(specs.drop_last());
        let path = path_names(specs.last());
        if path.len() == 0 {
            before
        } else {
            before.push(path)
        }
    }
}

/// The paths that a job sorts by: those that the keys describe, or the one that
/// leads to the whole value.
pub open spec fn job_paths(specs: Seq<Seq<char>>) -> Seq<Seq<Seq<char>>> {
    if named_paths(specs).len() == 0 {
        seq![Seq::<Seq<char>>::empty()]
    } else {
        named_paths(specs)
    }
}

/// The names of paths.
pub open spec fn path_views(paths: Seq<Vec<String>>) -> Seq<Seq<Seq<char>>> {
    paths.map_values(|p: Vec<String>| texts(p@))
}

/// Reads a path.
fn parse_path(s: &str) -> (path: Vec<String>)
    ensures
        texts(path@) == path_names(s@),
{
    let c: Vec<char> = chars_of(s);
    let end: usize = c.len();
    let mut path: Vec<String> = Vec::new();
    let mut at: usize = 0;
    proof {
        assert(s@.skip(0) =~= s@);
        assert(texts(path@) + path_names(s@) =~= path_names(s@));
    }
    while at < end
        invariant
            c@ == s@,
            end == c@.len(),
            at <= end,
            texts(path@) + path_names(s@.skip(at as int)) == path_names(s@),
        decreases end - at,
    {
        let dot: usize = char_position(&c, at, '.');
        let ghost rest = s@.skip(at as int);
        let ghost before = path@;
        if dot > at {
            let name = s.substring_char(at, dot);
            proof {
                assert(name@ =~= rest.take(dot - at));
                if dot == end {
                    assert(rest.take(dot - at) =~= rest);
                }
            }
            path.push(name.to_owned());
            assert(texts(path@) =~= texts(before).push(name@));
        }
        let next: usize = if dot < end {
            dot + 1
        } else {
            end
        };
        proof {
            lemma_lead(rest, char_other_than('.'));
            let tail = path_names(s@.skip(next as int));
            if dot < end {
                assert(rest.skip(dot - at + 1) =~= s@.skip(next as int));
            } else {
                assert(s@.skip(next as int) =~= Seq::<char>::empty());
                assert(path_names(Seq::<char>::empty()) =~= Seq::<Seq<char>>::empty());
            }
            if dot > at {
                let name = rest.take(dot - at);
                assert(path_names(rest) =~= seq![name] + tail);
                assert(texts(before) + (seq![name] + tail) =~= texts(path@) + tail);
            } else {
                assert(path_names(rest) =~= tail);
            }
        }
        at = next;
    }
    proof {
        assert(s@.skip(at as int) =~= Seq::<char>::empty());
        assert(path_names(Seq::<char>::empty()) =~= Seq::<Seq<char>>::empty());
        assert(texts(path@) + Seq::<Seq<char>>::empty() =~= texts(path@));
    }
    path
}

/// Reads the paths that a job sorts by: names between dots. Without any name the
/// whole value is compared.
pub fn parse_paths(cfg: &Config) -> (paths: Vec<Vec<String>>)
    ensures
        path_views(paths@) == job_paths(texts(cfg.keys@)),
{
    let mut paths: Vec<Vec<String>> = Vec::new();
    let mut i: usize = 0;
    let ghost specs = texts(cfg.keys@);
    assert(specs.take(0) =~= Seq::<Seq<char>>::empty());
    assert(path_views(paths@) =~= Seq::<Seq<Seq<char>>>::empty());
    while i < cfg.keys.len()
        invariant
            i <= cfg.keys@.len(),
            specs == texts(cfg.keys@),
            path_views(paths@) == named_paths(specs.take(i as int)),
        decreases cfg.keys@.len() - i,
    {
        let path: Vec<String> = parse_path(cfg.keys[i].as_str());
        let ghost before = paths@;
        proof {
            assert(specs.take(i + 1).drop_last() =~= specs.take(i as int));
            assert(specs.take(i + 1).last() == cfg.keys@[i as int]@);
            assert(texts(path@).len() == path@.len());
        }
        if path.len() > 0 {
            let ghost names = texts(path@);
            paths.push(path);
            assert(path_views(paths@) =~= path_views(before).push(names));
        }
        i += 1;
    }
    assert(specs.take(i as int) =~= specs);
    if paths.len() == 0 {
        let whole: Vec<String> = Vec::new();
        assert(texts(whole@) =~= Seq::<Seq<char>>::empty());
        assert(named_paths(specs).len() == 0);
        paths.push(whole);
        assert(path_views(paths@) =~= seq![Seq::<Seq<char>>::empty()]);
    } else {
        assert(path_views(paths@).len() == paths@.len());
    }
    paths
}

/// The order of two values by several paths: the first that tells them apart
/// decides.
pub open spec fn trees_order(paths: Seq<Seq<Seq<char>>>, reverse: bool, a: JsonTree, b: JsonTree) -> Ordering
    decreases paths.len(),
{
    if paths.len() == 0 {
        Ordering::Equal
    } else {
        tie_broken(
            directed(jkey_order(key_at(a, paths[0]), key_at(b, paths[0])), reverse),
            trees_order(paths.drop_first(), reverse, a, b),
        )
    }
}

/// [`trees_order`] as a function.
pub open spec fn by_paths(paths: Seq<Seq<Seq<char>>>, reverse: bool) -> spec_fn(
    JsonTree,
    JsonTree,
) -> Ordering {
    |a: JsonTree, b: JsonTree| trees_order(paths, reverse, a, b)
}

/// Whether the paths do not tell two values apart.
pub open spec fn same_at_paths(paths: Seq<Seq<Seq<char>>>) -> spec_fn(JsonTree, JsonTree) -> bool {
    |a: JsonTree, b: JsonTree| trees_order(paths, false, a, b) == Ordering::Equal
}

/// The order of values is total.
pub proof fn trees_order_is_total(paths: Seq<Seq<Seq<char>>>, reverse: bool)
    ensures
        is_total_order(by_paths(paths, reverse)),
    decreases paths.len(),
{
    if paths.len() > 0 {
        let path = paths[0];
        let rest = paths.drop_first();
        let c = |a: KeyView, b: KeyView| jkey_order(a, b);
        let d = |a: JsonTree, b: JsonTree| jkey_order(key_at(a, path), key_at(b, path));
        let e = |a: JsonTree, b: JsonTree|
            directed(jkey_order(key_at(a, path), key_at(b, path)), reverse);
        jkey_order_is_total();
        lemma_pullback_is_total(d, c, |a: JsonTree| key_at(a, path));
        lemma_directed_is_total(e, d, reverse);
        trees_order_is_total(rest, reverse);
        lemma_tie_broken_is_total(by_paths(paths, reverse), e, by_paths(rest, reverse));
    }
}

/// Reversing the order does not change which values are the same.
pub proof fn lemma_same_either_way(paths: Seq<Seq<Seq<char>>>, a: JsonTree, b: JsonTree)
    ensures
        trees_order(paths, true, a, b) == Ordering::Equal <==> trees_order(paths, false, a, b)
            == Ordering::Equal,
    decreases paths.len(),
{
    if paths.len() > 0 {
        lemma_same_either_way(paths.drop_first(), a, b);
    }
}

/// Values by their positions.
struct ListedValues<'s> {
    values: &'s Vec<serde_json::Value>,
    paths: &'s Vec<Vec<String>>,
    reverse: bool,
}

impl<'s> ListedValues<'s> {
    fn compare_values(&self, a: &serde_json::Value, b: &serde_json::Value) -> (o: Ordering)
        ensures
            o == trees_order(path_views(self.paths@), self.reverse, json_tree(*a), json_tree(*b)),
    {
        let ghost all = path_views(self.paths@);
        let ghost x = json_tree(*a);
        let ghost y = json_tree(*b);
        let mut i: usize = 0;
        assert(all.skip(0) =~= all);
        while i < self.paths.len()
            invariant
                i <= self.paths@.len(),
                all == path_views(self.paths@),
                x == json_tree(*a),
                y == json_tree(*b),
                trees_order(all, self.reverse, x, y) == trees_order(
                    all.skip(ix(i)),
                    self.reverse,
                    x,
                    y,
                ),
            decreases self.paths@.len() - i,
        {
            let path = &self.paths[i];
            assert(all.skip(ix(i)).drop_first() =~= all.skip(i + 1));
            assert(all.skip(ix(i))[0] == texts(path@));
            let o = json_key(a, path).cmp(&json_key(b, path));
            match o {
                Ordering::Equal => {},
                _ => {
                    return if self.reverse {
                        flip(o)
                    } else {
                        o
                    };
                },
            }
            i += 1;
        }
        Ordering::Equal
    }
}

impl<'s> ItemOrder<usize> for ListedValues<'s> {
    closed spec fn admits(&self, item: usize) -> bool {
        item < self.values@.len()
    }

    closed spec fn item_order(&self) -> spec_fn(usize, usize) -> Ordering {
        |a: usize, b: usize|
            trees_order(
                path_views(self.paths@),
                self.reverse,
                json_tree(self.values@[ix(a)]),
                json_tree(self.values@[ix(b)]),
            )
    }

    proof fn item_order_is_total(&self) {
        trees_order_is_total(path_views(self.paths@), self.reverse);
        lemma_pullback_is_total(
            self.item_order(),
            by_paths(path_views(self.paths@), self.reverse),
            |a: usize| json_tree(self.values@[ix(a)]),
        );
    }

    fn compare_items(&self, a: &usize, b: &usize) -> (o: Ordering) {
        self.compare_values(&self.values[*a], &self.values[*b])
    }
}

impl<'s> LineItems<usize> for ListedValues<'s> {
    type Line = JsonTree;

    closed spec fn line(&self, item: usize) -> JsonTree {
        json_tree(self.values@[ix(item)])
    }

    closed spec fn line_order(&self) -> spec_fn(JsonTree, JsonTree) -> Ordering {
        by_paths(path_views(self.paths@), self.reverse)
    }

    closed spec fn same_line(&self) -> spec_fn(JsonTree, JsonTree) -> bool {
        same_at_paths(path_views(self.paths@))
    }

    closed spec fn ties_are_identical(&self) -> bool {
        false
    }

    proof fn items_follow_lines(&self) {
        trees_order_is_total(path_views(self.paths@), self.reverse);
    }

    fn same_items(&self, a: &usize, b: &usize) -> (r: bool) {
        proof {
            lemma_same_either_way(
                path_views(self.paths@),
                json_tree(self.values@[ix(*a)]),
                json_tree(self.values@[ix(*b)]),
            );
        }
        match self.compare_values(&self.values[*a], &self.values[*b]) {
            Ordering::Equal => true,
            _ => false,
        }
    }
}

/// The values that a job writes.
pub open spec fn arranged_trees(values: Seq<JsonTree>, cfg: Config) -> Seq<JsonTree> {
    let paths = job_paths(texts(cfg.keys@));
    arranged(values, by_paths(paths, cfg.reverse), same_at_paths(paths), cfg.unique, cfg.top)
}

/// The values that a job keeps before `--top` cuts them off.
pub open spec fn distinct_trees(values: Seq<JsonTree>, cfg: Config) -> Seq<JsonTree> {
    let paths = job_paths(texts(cfg.keys@));
    distinct(values, by_paths(paths, cfg.reverse), same_at_paths(paths), cfg.unique)
}

/// What the values with these positions hold.
pub open spec fn chosen_trees(values: Seq<serde_json::Value>, picks: Seq<usize>) -> Seq<JsonTree> {
    picks.map_values(|i: usize| json_tree(values[ix(i)]))
}

/// Puts values in order: sorted, without repeated keys where `-u` asks for it, and
/// cut off at `--top`. Values that tie keep their order. Gives their positions and
/// how many `-u` removed.
pub fn order_values(values: &Vec<serde_json::Value>, cfg: &Config) -> (r: (Vec<usize>, usize))
    ensures
        chosen_trees(values@, r.0@) == arranged_trees(trees(values@), *cfg),
        forall|k: int| 0 <= k < r.0@.len() ==> #[trigger] r.0@[k] < values@.len(),
        r.1 == values@.len() - distinct_trees(trees(values@), *cfg).len(),
{
    let paths: Vec<Vec<String>> = parse_paths(cfg);
    let by = ListedValues { values, paths: &paths, reverse: cfg.reverse };
    let mut items: Vec<usize> = Vec::new();
    let mut i: usize = 0;
    while i < values.len()
        invariant
            i <= values@.len(),
            items@.len() == i,
            forall|k: int| 0 <= k < i ==> #[trigger] items@[k] == k,
        decreases values@.len() - i,
    {
        items.push(i);
        i += 1;
    }
    proof {
        assert(lines_of(&by, items@) =~= trees(values@));
    }
    let (picks, removed) = arrange(items, &by, true, cfg.unique, cfg.top);
    proof {
        assert(lines_of(&by, picks@) =~= chosen_trees(values@, picks@));
        assert forall|k: int| 0 <= k < picks@.len() implies #[trigger] picks@[k] < values@.len() by {
            assert(by.admits(picks@[k]));
        }
    }
    (picks, removed)
}

/// The values on the lines that are not empty; `None` where one of them is not JSON.
pub open spec fn values_on_lines(lines: Seq<Seq<u8>>) -> Option<Seq<JsonTree>>
    decreases lines.len(),
{
    if lines.len() == 0 {
        Some(Seq::empty())
    } else {
        match values_on_lines(lines.drop_last()) {
            None => None,
            Some(before) => if lines.last().len() == 0 {
                Some(before)
            } else {
                match parsed_json(lines.last()) {
                    Some(t) => Some(before.push(t)),
                    None => None,
                }
            },
        }
    }
}

proof fn lemma_bad_line(lines: Seq<Seq<u8>>, i: int)
    requires
        0 <= i <= lines.len(),
        values_on_lines(lines.take(i)) is None,
    ensures
        values_on_lines(lines) is None,
    decreases lines.len(),
{
    if i == lines.len() {
        assert(lines.take(i) =~= lines);
    } else {
        assert(lines.drop_last().take(i) =~= lines.take(i));
        lemma_bad_line(lines.drop_last(), i);
    }
}

/// Reads the value on each line that is not empty.
fn read_values(data: &Vec<u8>) -> (r: Result<Vec<serde_json::Value>, serde_json::Error>)
    ensures
        match r {
            Ok(v) => values_on_lines(split(data@, NEWLINE)) == Some(trees(v@)),
            Err(_) => values_on_lines(split(data@, NEWLINE)) is None,
        },
{
    let lines: Vec<&[u8]> = split_lines(data.as_slice(), NEWLINE);
    let ghost all = views(lines@);
    let mut values: Vec<serde_json::Value> = Vec::new();
    let mut i: usize = 0;
    proof {
        assert(all.take(0) =~= Seq::<Seq<u8>>::empty());
        assert(trees(values@) =~= Seq::<JsonTree>::empty());
    }
    while i < lines.len()
        invariant
            i <= lines@.len(),
            all == views(lines@),
            all == split(data@, NEWLINE),
            values_on_lines(all.take(i as int)) == Some(trees(values@)),
        decreases lines@.len() - i,
    {
        let line: &[u8] = lines[i];
        let ghost before = values@;
        proof {
            assert(all.take(i + 1).drop_last() =~= all.take(i as int));
            assert(all.take(i + 1).last() == line@);
        }
        if line.len() > 0 {
            match parse_json(line) {
                Ok(v) => {
                    values.push(v);
                    assert(trees(values@) =~= trees(before).push(json_tree(v)));
                },
                Err(e) => {
                    proof {
                        lemma_bad_line(all, i + 1);
                    }
                    return Err(e);
                },
            }
        }
        i += 1;
    }
    assert(all.take(i as int) =~= all);
    Ok(values)
}

/// Values on lines of their own.
pub open spec fn written_values(values: Seq<JsonTree>) -> Seq<u8>
    decreases values.len(),
{
    if values.len() == 0 {
        Seq::empty()
    } else {
        written_values(values.drop_last()) + encode_utf8(values.last().text) + seq![NEWLINE]
    }
}

/// The texts of values.
pub open spec fn tree_texts(values: Seq<JsonTree>) -> Seq<Seq<char>> {
    values.map_values(|t: JsonTree| t.text)
}

/// The bytes that a job writes: values on lines of their own, or one array.
pub open spec fn json_bytes(values: Seq<JsonTree>, lines_mode: bool) -> Seq<u8> {
    if lines_mode {
        written_values(values)
    } else {
        encode_utf8(pretty_json(tree_texts(values))) + seq![NEWLINE]
    }
}

/// Writes each of the chosen values on a line of its own.
fn write_values(values: &Vec<serde_json::Value>, picks: &Vec<usize>) -> (r: Result<Vec<u8>, serde_json::Error>)
    requires
        forall|k: int| 0 <= k < picks@.len() ==> #[trigger] picks@[k] < values@.len(),
    ensures
        r is Ok,
        r->Ok_0@ == written_values(chosen_trees(values@, picks@)),
{
    let mut out: Vec<u8> = Vec::new();
    let mut i: usize = 0;
    let ghost all = chosen_trees(values@, picks@);
    assert(all.take(0) =~= Seq::<JsonTree>::empty());
    assert(out@ =~= Seq::<u8>::empty());
    while i < picks.len()
        invariant
            i <= picks@.len(),
            forall|k: int| 0 <= k < picks@.len() ==> #[trigger] picks@[k] < values@.len(),
            all == chosen_trees(values@, picks@),
            out@ == written_values(all.take(i as int)),
        decreases picks@.len() - i,
    {
        proof {
            assert(picks@[i as int] < values@.len());
            assert(all.take(i + 1).drop_last() =~= all.take(i as int));
            assert(all.take(i + 1).last() == json_tree(values@[picks@[i as int] as int]));
        }
        match compact_json(&values[picks[i]]) {
            Ok(text) => {
                push_bytes(&mut out, text.as_str().as_bytes());
            },
            Err(e) => {
                return Err(e);
            },
        }
        out.push(NEWLINE);
        assert(out@ =~= written_values(all.take(i + 1)));
        i += 1;
    }
    assert(all.take(i as int) =~= all);
    Ok(out)
}

/// Writes the chosen values as one array over several lines.
fn write_array(values: &Vec<serde_json::Value>, picks: &Vec<usize>) -> (r: Result<Vec<u8>, serde_json::Error>)
    requires
        forall|k: int| 0 <= k < picks@.len() ==> #[trigger] picks@[k] < values@.len(),
    ensures
        r is Ok,
        r->Ok_0@ == json_bytes(chosen_trees(values@, picks@), false),
{
    let mut chosen: Vec<&serde_json::Value> = Vec::new();
    let mut i: usize = 0;
    while i < picks.len()
        invariant
            i <= picks@.len(),
            forall|k: int| 0 <= k < picks@.len() ==> #[trigger] picks@[k] < values@.len(),
            chosen@.len() == i,
            forall|k: int| 0 <= k < i ==> *(#[trigger] chosen@[k]) == values@[picks@[k] as int],
        decreases picks@.len() - i,
    {
        assert(picks@[i as int] < values@.len());
        chosen.push(&values[picks[i]]);
        i += 1;
    }
    assert(value_texts(chosen@) =~= tree_texts(chosen_trees(values@, picks@)));
    match pretty_array(&chosen) {
        Ok(text) => {
            let mut out: Vec<u8> = Vec::new();
            push_bytes(&mut out, text.as_str().as_bytes());
            out.push(NEWLINE);
            assert(out@ =~= json_bytes(chosen_trees(values@, picks@), false));
            Ok(out)
        },
        Err(e) => Err(e),
    }
}

/// The values of a job: one on each line, or the elements of an array.
pub open spec fn job_values(data: Seq<u8>, lines_mode: bool) -> Option<Seq<JsonTree>> {
    if lines_mode {
        values_on_lines(split(data, NEWLINE))
    } else {
        match parsed_json(data) {
            Some(t) => match t.node {
                JsonNode::Array(a) => Some(a),
                _ => None,
            },
            None => None,
        }
    }
}

/// `run` is what sorting the values of `data` leaves behind.
pub open spec fn is_json_run(cfg: Config, data: Seq<u8>, lines_mode: bool, run: Run) -> bool {
    let values = job_values(data, lines_mode);
    &&& values is Some
    &&& run.output is Some
    &&& run.output->Some_0@ == json_bytes(arranged_trees(values->Some_0, cfg), lines_mode)
    &&& run.report@.len() == 0
    &&& run.outcome == success(
        cfg.stats,
        record_stats(
            values->Some_0.len(),
            arranged_trees(values->Some_0, cfg).len(),
            distinct_trees(values->Some_0, cfg).len(),
        ),
    )
}

/// `e` is why the values of `data` cannot be sorted: it is not JSON, or not an
/// array.
pub open spec fn is_json_fault(data: Seq<u8>, lines_mode: bool, e: RunError) -> bool {
    match e {
        RunError::Json(_) => if lines_mode {
            values_on_lines(split(data, NEWLINE)) is None
        } else {
            parsed_json(data) is None
        },
        RunError::Invalid(m) => !lines_mode && parsed_json(data) is Some && !(parsed_json(
            data,
        )->Some_0.node is Array) && m@ == "--json input must be a JSON array"@,
        _ => false,
    }
}

/// Sorts JSON values: one on each line, or the elements of an array.
pub fn run_json(cfg: &Config, input: &Input, lines_mode: bool) -> (r: Result<Run, RunError>)
    ensures
        match r {
            Ok(run) => input.is_readable() && is_json_run(
                *cfg,
                input.text(NEWLINE),
                lines_mode,
                run,
            ),
            Err(RunError::Input(e)) => input.is_fault(e),
            Err(e) => input.is_readable() && is_json_fault(input.text(NEWLINE), lines_mode, e),
        },
{
    let data: Vec<u8> = match read_all(input, NEWLINE) {
        Ok(data) => data,
        Err(e) => {
            return Err(RunError::Input(e));
        },
    };
    let values: Vec<serde_json::Value> = if lines_mode {
        match read_values(&data) {
            Ok(values) => values,
            Err(e) => {
                return Err(RunError::Json(e));
            },
        }
    } else {
        match parse_json(data.as_slice()) {
            Ok(v) => match array_elements(v) {
                Some(values) => values,
                None => {
                    return Err(RunError::Invalid("--json input must be a JSON array".to_owned()));
                },
            },
            Err(e) => {
                return Err(RunError::Json(e));
            },
        }
    };
    let lines_in: usize = values.len();
    let (picks, removed) = order_values(&values, cfg);
    let lines_out: usize = picks.len();
    proof {
        assert(chosen_trees(values@, picks@).len() == lines_out);
    }
    let written = if lines_mode {
        write_values(&values, &picks)
    } else {
        write_array(&values, &picks)
    };
    match written {
        Ok(output) => Ok(
            Run {
                output: Some(output),
                report: Vec::new(),
                outcome: succeed(
                    cfg.stats,
                    Stats {
                        lines_in,
                        lines_out,
                        duplicates_removed: removed,
                        chunks: None,
                    },
                ),
            },
        ),
        Err(e) => Err(RunError::Json(e)),
    }
}

} // verus!
