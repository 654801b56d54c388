//! What the keys of a JSON job mean, how they order values, and how values are laid
//! out.

use crate::double_laws::{double_units, grid_counts_units};
use crate::index::ints;
use crate::input::split;
use crate::json_format::{
    is_json_fault, jkey_order, job_paths, job_values, json_bytes, key_at, key_of_tree, kind_rank,
    named_paths, number_view, parsed_json, path_names, pretty_json, tree_texts, trees_order,
    values_on_lines, written_values, JsonNode, JsonTree, KeyView,
};
use crate::json_number::JsonNumber;
use crate::lex::lex_order;
use crate::order_laws::{
    byte_value, goes_by_first_difference, lemma_image_goes_by_first_difference, opposite,
};
use crate::outcome::RunError;
use crate::text::{lead, lemma_lead, lemma_run_in_front};
use crate::words::char_other_than;
use std::cmp::Ordering;
use vstd::arithmetic::power2::pow2;
use vstd::prelude::*;
use vstd::utf8::encode_utf8;

verus! {

/// No character is a dot.
pub open spec fn lacks_dots(s: Seq<char>) -> bool {
    forall|i: int| 0 <= i < s.len() ==> #[trigger] s[i] != '.'
}

/// Text without a dot is a path of one name, and no text is a path of none.
pub proof fn names_are_paths(s: Seq<char>)
    requires
        lacks_dots(s),
    ensures
        s.len() == 0 ==> path_names(s) == Seq::<Seq<char>>::empty(),
        s.len() > 0 ==> path_names(s) == seq![s],
{
    let none = Seq::<char>::empty();
    assert(s + none =~= s);
    lemma_run_in_front(s, none, char_other_than('.'));
}

/// A dot stands between the names of a path: those before it come first, then those
/// behind it.
pub proof fn dots_join_paths(s: Seq<char>, t: Seq<char>)
    ensures
        path_names(s + seq!['.'] + t) == path_names(s) + path_names(t),
    decreases s.len(),
{
    let dot = seq!['.'];
    let n = lead(s, char_other_than('.'));
    lemma_lead(s, char_other_than('.'));
    let name = s.take(n);
    let whole = s + dot + t;
    if n == s.len() {
        names_are_paths(s);
        assert(whole =~= s + (dot + t));
        lemma_run_in_front(s, dot + t, char_other_than('.'));
        assert(whole.skip(n + 1) =~= t);
        assert(whole.take(n) =~= s);
        if n == 0 {
            assert(path_names(s) + path_names(t) =~= path_names(t));
        }
    } else {
        let rest = s.skip(n + 1);
        assert(whole =~= name + (s.skip(n) + dot + t));
        assert((s.skip(n) + dot + t)[0] == s[n]);
        lemma_run_in_front(name, s.skip(n) + dot + t, char_other_than('.'));
        assert(whole.skip(n + 1) =~= rest + dot + t);
        assert(whole.take(n) =~= name);
        dots_join_paths(rest, t);
        if n > 0 {
            assert((seq![name] + path_names(rest)) + path_names(t) =~= seq![name] + (path_names(
                rest,
            ) + path_names(t)));
        }
    }
}

/// Where every key has a name, the paths of a job are those of its keys, in their
/// order.
pub proof fn paths_stand_in_order(specs: Seq<Seq<char>>)
    requires
        forall|i: int| 0 <= i < specs.len() ==> path_names(#[trigger] specs[i]).len() > 0,
        specs.len() > 0,
    ensures
        job_paths(specs).len() == specs.len(),
        forall|i: int|
            0 <= i < specs.len() ==> job_paths(specs)[i] == path_names(#[trigger] specs[i]),
{
    lemma_named_paths(specs);
}

proof fn lemma_named_paths(specs: Seq<Seq<char>>)
    requires
        forall|i: int| 0 <= i < specs.len() ==> path_names(#[trigger] specs[i]).len() > 0,
    ensures
        named_paths(specs).len() == specs.len(),
        forall|i: int|
            0 <= i < specs.len() ==> named_paths(specs)[i] == path_names(#[trigger] specs[i]),
    decreases specs.len(),
{
    if specs.len() > 0 {
        let front = specs.drop_last();
        assert forall|i: int| 0 <= i < front.len() implies path_names(#[trigger] front[i]).len()
            > 0 by {
            assert(front[i] == specs[i]);
        }
        lemma_named_paths(front);
        assert(path_names(specs[specs.len() - 1]).len() > 0);
        assert forall|i: int| 0 <= i < specs.len() implies named_paths(specs)[i] == path_names(
            #[trigger] specs[i],
        ) by {
            if i < front.len() {
                assert(front[i] == specs[i]);
            }
        }
    }
}

/// A key without a name has no path: it can be left out anywhere.
pub proof fn nameless_keys_do_not_matter(before: Seq<Seq<char>>, spec: Seq<char>, after: Seq<Seq<char>>)
    requires
        path_names(spec).len() == 0,
    ensures
        job_paths(before + seq![spec] + after) == job_paths(before + after),
{
    lemma_nameless(before, spec, after);
}

proof fn lemma_nameless(before: Seq<Seq<char>>, spec: Seq<char>, after: Seq<Seq<char>>)
    requires
        path_names(spec).len() == 0,
    ensures
        named_paths(before + seq![spec] + after) == named_paths(before + after),
    decreases after.len(),
{
    let whole = before + seq![spec] + after;
    let short = before + after;
    if after.len() == 0 {
        assert(whole.drop_last() =~= before);
        assert(short =~= before);
    } else {
        lemma_nameless(before, spec, after.drop_last());
        assert(whole.drop_last() =~= before + seq![spec] + after.drop_last());
        assert(short.drop_last() =~= before + after.drop_last());
        assert(whole.last() == after.last() && short.last() == after.last());
    }
}

/// Without any key a job sorts by the whole values.
pub proof fn without_keys_whole_values(specs: Seq<Seq<char>>)
    requires
        specs.len() == 0,
    ensures
        job_paths(specs).len() == 1,
        job_paths(specs)[0].len() == 0,
{
}

/// A path leads from member to member; where one is missing it leads to nothing, which
/// counts as null.
pub proof fn paths_lead_to_members(tree: JsonTree, name: Seq<char>, rest: Seq<Seq<char>>)
    ensures
        key_at(tree, Seq::empty()) == key_of_tree(tree),
        ({
            let path = seq![name] + rest;
            match tree.node {
                JsonNode::Object(m) => if m.dom().contains(name) {
                    key_at(tree, path) == key_at(m[name], rest)
                } else {
                    key_at(tree, path) == KeyView::Null
                },
                _ => key_at(tree, path) == KeyView::Null,
            }
        }),
{
    let path = seq![name] + rest;
    assert(path.drop_first() =~= rest);
    assert(path[0] == name);
}

/// Null comes before booleans, these before numbers, these before strings, and these
/// before arrays and objects; `false` comes before `true`; and strings, like arrays
/// and objects as they are written, go by their bytes.
pub proof fn kinds_of_values_order(a: KeyView, b: KeyView)
    ensures
        ({
            let o = jkey_order(a, b);
            match (a, b) {
                (KeyView::Null, KeyView::Null) => o == Ordering::Equal,
                (KeyView::Null, _) => o == Ordering::Less,
                (_, KeyView::Null) => o == Ordering::Greater,
                (KeyView::Bool(x), KeyView::Bool(y)) => o == (if x == y {
                    Ordering::Equal
                } else if y {
                    Ordering::Less
                } else {
                    Ordering::Greater
                }),
                (KeyView::Bool(_), _) => o == Ordering::Less,
                (_, KeyView::Bool(_)) => o == Ordering::Greater,
                (KeyView::Num(x), KeyView::Num(y)) => {
                    &&& x.value < y.value ==> o == Ordering::Less
                    &&& x.value > y.value ==> o == Ordering::Greater
                    &&& x.value == y.value && x.minus_zero == y.minus_zero ==> o == Ordering::Equal
                    &&& x.value == y.value && x.minus_zero && !y.minus_zero ==> o == Ordering::Less
                    &&& x.value == y.value && !x.minus_zero && y.minus_zero ==> o
                        == Ordering::Greater
                },
                (KeyView::Num(_), _) => o == Ordering::Less,
                (_, KeyView::Num(_)) => o == Ordering::Greater,
                (KeyView::Str(x), KeyView::Str(y)) => goes_by_first_difference(
                    o,
                    encode_utf8(x),
                    encode_utf8(y),
                    byte_value(),
                ),
                (KeyView::Str(_), _) => o == Ordering::Less,
                (_, KeyView::Str(_)) => o == Ordering::Greater,
                (KeyView::Other(x), KeyView::Other(y)) => goes_by_first_difference(
                    o,
                    encode_utf8(x),
                    encode_utf8(y),
                    byte_value(),
                ),
            }
        }),
{
    match (a, b) {
        (KeyView::Bool(_), KeyView::Bool(_)) => {
            reveal_with_fuel(lex_order, 3);
        },
        (KeyView::Num(_), KeyView::Num(_)) => {
            reveal_with_fuel(lex_order, 4);
        },
        (KeyView::Str(x), KeyView::Str(y)) => {
            let (p, q) = (encode_utf8(x), encode_utf8(y));
            lemma_image_goes_by_first_difference(p, q, byte_value(), ints(p), ints(q));
        },
        (KeyView::Other(x), KeyView::Other(y)) => {
            let (p, q) = (encode_utf8(x), encode_utf8(y));
            lemma_image_goes_by_first_difference(p, q, byte_value(), ints(p), ints(q));
        },
        _ => {},
    }
}

/// A value is compared as what it is: only arrays and objects as text.
pub proof fn values_are_compared_as_they_are(tree: JsonTree)
    ensures
        match tree.node {
            JsonNode::Null => key_of_tree(tree) == KeyView::Null,
            JsonNode::Bool(b) => key_of_tree(tree) == KeyView::Bool(b),
            JsonNode::Number(n) => key_of_tree(tree) is Num,
            JsonNode::Text(s) => key_of_tree(tree) == KeyView::Str(s),
            JsonNode::Array(_) => key_of_tree(tree) == KeyView::Other(tree.text),
            JsonNode::Object(_) => key_of_tree(tree) == KeyView::Other(tree.text),
        },
{
}

/// A number is compared by its value, in units of `2^-1074`: exactly where it is an
/// integer of 64 bits, otherwise as a double precision value, whose top bit is its
/// sign.
pub proof fn json_numbers_have_their_values(n: JsonNumber)
    ensures
        n.signed matches Some(i) ==> number_view(n).value == i * pow2(1074),
        n.signed is None ==> (n.unsigned matches Some(u) ==> number_view(n).value == u * pow2(1074)),
        n.signed is Some || n.unsigned is Some ==> !number_view(n).minus_zero,
        n.signed is None && n.unsigned is None ==> (n.double matches Some(bits) ==> {
            let v = number_view(n);
            &&& bits < 0x8000_0000_0000_0000 ==> v.value == double_units(bits as nat)
            &&& bits >= 0x8000_0000_0000_0000 ==> v.value == -double_units(
                (bits - 0x8000_0000_0000_0000) as nat,
            )
            &&& v.minus_zero <==> bits == 0x8000_0000_0000_0000
        }),
{
    if let Some(bits) = n.double {
        let m: u64 = 0x8000_0000_0000_0000;
        grid_counts_units((bits % m) as nat);
        if bits >= m {
            assert(bits % m == bits - m);
        } else {
            assert(bits % m == bits);
        }
    }
}

/// The first path at which values differ decides, whatever the later ones say, `-r`
/// turns its order round, and values that differ at no path tie.
pub proof fn first_differing_path_decides(
    paths: Seq<Seq<Seq<char>>>,
    reverse: bool,
    a: JsonTree,
    b: JsonTree,
    i: int,
)
    requires
        0 <= i <= paths.len(),
        forall|j: int|
            0 <= j < i ==> jkey_order(key_at(a, #[trigger] paths[j]), key_at(b, paths[j]))
                == Ordering::Equal,
        i < paths.len() ==> jkey_order(key_at(a, paths[i]), key_at(b, paths[i]))
            != Ordering::Equal,
    ensures
        trees_order(paths, reverse, a, b) == (if i == paths.len() {
            Ordering::Equal
        } else if reverse {
            opposite(jkey_order(key_at(a, paths[i]), key_at(b, paths[i])))
        } else {
            jkey_order(key_at(a, paths[i]), key_at(b, paths[i]))
        }),
    decreases i,
{
    if i > 0 {
        let rest = paths.drop_first();
        assert(jkey_order(key_at(a, paths[0]), key_at(b, paths[0])) == Ordering::Equal);
        assert forall|j: int| 0 <= j < i - 1 implies jkey_order(
            key_at(a, #[trigger] rest[j]),
            key_at(b, rest[j]),
        ) == Ordering::Equal by {
            assert(rest[j] == paths[j + 1]);
        }
        first_differing_path_decides(rest, reverse, a, b, i - 1);
    }
}

/// Values that differ at the path of the first key are ordered by it, whatever the
/// later keys say.
pub proof fn first_key_decides(specs: Seq<Seq<char>>, reverse: bool, a: JsonTree, b: JsonTree)
    requires
        specs.len() > 0,
        forall|i: int| 0 <= i < specs.len() ==> path_names(#[trigger] specs[i]).len() > 0,
    ensures
        ({
            let path = path_names(specs[0]);
            let o = jkey_order(key_at(a, path), key_at(b, path));
            o != Ordering::Equal ==> trees_order(job_paths(specs), reverse, a, b) == (if reverse {
                opposite(o)
            } else {
                o
            })
        }),
{
    paths_stand_in_order(specs);
    let path = path_names(specs[0]);
    if jkey_order(key_at(a, path), key_at(b, path)) != Ordering::Equal {
        first_differing_path_decides(job_paths(specs), reverse, a, b, 0);
    }
}

/// The values of lines are those of the first lines and then those of the others; an
/// empty line has none, and any other line has the one that it holds.
pub proof fn lines_hold_values_in_order(a: Seq<Seq<u8>>, b: Seq<Seq<u8>>)
    ensures
        values_on_lines(a + b) == (match (values_on_lines(a), values_on_lines(b)) {
            (Some(x), Some(y)) => Some(x + y),
            _ => None,
        }),
        forall|line: Seq<u8>|
            #![trigger parsed_json(line)]
            line.len() > 0 ==> values_on_lines(seq![line]) == (match parsed_json(line) {
                Some(t) => Some(seq![t]),
                None => None,
            }),
        values_on_lines(seq![Seq::<u8>::empty()]) == Some(Seq::<JsonTree>::empty()),
    decreases b.len(),
{
    if b.len() == 0 {
        assert(a + b =~= a);
        if let Some(x) = values_on_lines(a) {
            assert(x + Seq::<JsonTree>::empty() =~= x);
        }
    } else {
        lines_hold_values_in_order(a, b.drop_last());
        assert((a + b).drop_last() =~= a + b.drop_last());
        assert((a + b).last() == b.last());
        match (values_on_lines(a), values_on_lines(b.drop_last()), parsed_json(b.last())) {
            (Some(x), Some(y), Some(t)) => {
                assert((x + y).push(t) =~= x + y.push(t));
            },
            _ => {},
        }
    }
    assert forall|line: Seq<u8>|
        #![trigger parsed_json(line)]
        line.len() > 0 implies values_on_lines(seq![line]) == (match parsed_json(line) {
        Some(t) => Some(seq![t]),
        None => None,
    }) by {
        lemma_one_line(line);
    }
    lemma_one_line(Seq::empty());
}

proof fn lemma_one_line(line: Seq<u8>)
    ensures
        line.len() > 0 ==> values_on_lines(seq![line]) == (match parsed_json(line) {
            Some(t) => Some(seq![t]),
            None => None,
        }),
        line.len() == 0 ==> values_on_lines(seq![line]) == Some(Seq::<JsonTree>::empty()),
{
    let lines = seq![line];
    assert(lines.drop_last() =~= Seq::<Seq<u8>>::empty());
    assert(lines.last() == line);
    reveal_with_fuel(values_on_lines, 2);
    if let Some(t) = parsed_json(line) {
        assert(Seq::<JsonTree>::empty().push(t) =~= seq![t]);
    }
}

/// Values on lines of their own: each is followed by a newline, and they stand one
/// behind the other.
pub proof fn values_are_written_in_order(a: Seq<JsonTree>, b: Seq<JsonTree>, t: JsonTree)
    ensures
        json_bytes(a + b, true) == json_bytes(a, true) + json_bytes(b, true),
        json_bytes(seq![t], true) == encode_utf8(t.text) + seq![0x0au8],
        json_bytes(Seq::empty(), true) == Seq::<u8>::empty(),
    decreases b.len(),
{
    if b.len() == 0 {
        assert(a + b =~= a);
        assert(written_values(a) + Seq::<u8>::empty() =~= written_values(a));
    } else {
        values_are_written_in_order(a, b.drop_last(), t);
        assert((a + b).drop_last() =~= a + b.drop_last());
        assert((a + b).last() == b.last());
        let (x, y) = (written_values(a), written_values(b.drop_last()));
        let (u, n) = (encode_utf8(b.last().text), seq![0x0au8]);
        assert((x + y) + u + n =~= x + (y + u + n));
    }
    let one = seq![t];
    assert(one.drop_last() =~= Seq::<JsonTree>::empty());
    assert(one.last() == t);
    reveal_with_fuel(written_values, 2);
    assert(Seq::<u8>::empty() + encode_utf8(t.text) + seq![0x0au8] =~= encode_utf8(t.text) + seq![
        0x0au8,
    ]);
}

/// Otherwise a job sorts the elements of an array, and anything but an array is
/// refused.
pub proof fn arrays_hold_values(data: Seq<u8>)
    ensures
        match parsed_json(data) {
            Some(t) => match t.node {
                JsonNode::Array(a) => job_values(data, false) == Some(a),
                _ => job_values(data, false) is None,
            },
            None => job_values(data, false) is None,
        },
{
}

/// The kinds of keys are ranked from null, 0, to arrays and objects, 4.
pub proof fn kinds_are_ranked(k: KeyView)
    ensures
        match k {
            KeyView::Null => kind_rank(k) == 0,
            KeyView::Bool(_) => kind_rank(k) == 1,
            KeyView::Num(_) => kind_rank(k) == 2,
            KeyView::Str(_) => kind_rank(k) == 3,
            KeyView::Other(_) => kind_rank(k) == 4,
        },
{
}

/// Without lines the values are written as one array, in their order, and a newline.
pub proof fn values_are_written_as_an_array(values: Seq<JsonTree>)
    ensures
        json_bytes(values, false) == encode_utf8(
            pretty_json(Seq::new(values.len(), |i: int| values[i].text)),
        ) + seq![0x0au8],
{
    assert(tree_texts(values) =~= Seq::new(values.len(), |i: int| values[i].text));
}

/// Line by line, a job sorts the values on the lines of its data.
pub proof fn lines_hold_the_values(data: Seq<u8>)
    ensures
        job_values(data, true) == values_on_lines(split(data, 0x0a)),
{
}

/// A JSON job fails only where its data is not JSON, or is JSON but no array.
pub proof fn only_bad_json_fails(data: Seq<u8>, lines_mode: bool, e: RunError)
    requires
        is_json_fault(data, lines_mode, e),
    ensures
        job_values(data, lines_mode) is None,
        match e {
            RunError::Json(_) => !lines_mode ==> parsed_json(data) is None,
            RunError::Invalid(m) => !lines_mode && parsed_json(data) is Some && m@
                == "--json input must be a JSON array"@,
            _ => false,
        },
{
}

} // verus!
