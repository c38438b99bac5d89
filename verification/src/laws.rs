//! What holds of every query of a given form, over every document.

use crate::grammar::{sentence, ParseError, Rule, Tree};
use crate::number::{float_is_finite, literal_number};
use crate::semantics::{
    apply_operator, eval_filter, eval_filter_expression, eval_filter_value, eval_key, eval_keys,
    eval_operand, eval_path, evaluate, filter_elements, is_reserved_operator, literal_value,
    should_filter, Env, EvalError, NumberView,
};
use crate::sentences::{
    are_word_keys, compare_query, dynamic_query, equality_rule, exists_query, filter_inner,
    is_filter_path, is_key_value, is_literal, is_word, is_word_key, lemma_compare_query,
    lemma_dynamic_query, lemma_exists_query, lemma_path_tree, literal_text, path_text,
    segment_words, uniform_segments, Literal, Segment,
};
use crate::value::{float_equal, index, json_equal, Json, Number};
use vstd::prelude::*;

verus! {

/// The value reached from `value` by indexing with each of `words` in turn.
pub open spec fn descend(value: Json, words: Seq<Seq<char>>) -> Json
    decreases words.len(),
{
    if words.len() == 0 {
        value
    } else {
        descend(index(value, words[0]), words.drop_first())
    }
}

/// Keys that hold words select by indexing, one word after the other: the
/// keys of `path` from the one at `from` on select what the keys behind the
/// words select from the value reached by the words.
pub proof fn lemma_word_keys_descend(
    env: Env,
    context: Json,
    path: Tree,
    words: Seq<Seq<char>>,
    from: int,
)
    requires
        words.len() <= path.children.len(),
        are_word_keys(path.children.take(words.len() as int), words),
        0 <= from <= words.len(),
    ensures
        eval_keys(env, context, path, from) == eval_keys(
            env,
            descend(context, words.skip(from)),
            path,
            words.len() as int,
        ),
    decreases words.len() - from,
{
    if from < words.len() {
        let k = path.children[from];
        assert(k == path.children.take(words.len() as int)[from]);
        assert(is_word_key(k, words[from]));
        assert(eval_key(env, context, k) == Ok::<Json, EvalError>(index(context, words[from])));
        lemma_word_keys_descend(env, index(context, words[from]), path, words, from + 1);
        assert(words.skip(from).drop_first() =~= words.skip(from + 1));
        assert(words.skip(from)[0] == words[from]);
    } else {
        assert(words.skip(from).len() == 0);
    }
}

/// A path of object keys, each written after a dot or in brackets, is a
/// query, and it selects the value found by indexing the document with the
/// keys in turn.
pub proof fn lemma_path_selects(segments: Seq<Segment>, numbers: Seq<NumberView>, document: Json)
    requires
        forall|i: int| 0 <= i < segments.len() ==> is_word((#[trigger] segments[i]).word),
    ensures
        evaluate(path_text(segments), numbers, document) == Ok::<
            Result<Json, EvalError>,
            ParseError,
        >(Ok(descend(document, segment_words(segments)))),
{
    lemma_path_tree(segments);
    let tree = sentence(Rule::JsonPath, path_text(segments))->Ok_0;
    let words = segment_words(segments);
    assert(tree.children.take(words.len() as int) =~= tree.children);
    lemma_word_keys_descend(Env { root: document, numbers }, document, tree, words, 0);
    assert(words.skip(0) =~= words);
}

/// Indexing `Null` gives `Null`, however often.
pub proof fn lemma_descend_null(words: Seq<Seq<char>>)
    ensures
        descend(Json::Null, words) == Json::Null,
    decreases words.len(),
{
    if words.len() > 0 {
        lemma_descend_null(words.drop_first());
    }
}

/// Indexing with all the words is indexing with the first `n` of them and
/// then with the others.
pub proof fn lemma_descend_split(value: Json, words: Seq<Seq<char>>, n: int)
    requires
        0 <= n <= words.len(),
    ensures
        descend(value, words) == descend(descend(value, words.take(n)), words.skip(n)),
    decreases n,
{
    if n == 0 {
        assert(words.skip(0) =~= words);
        assert(words.take(0).len() == 0);
    } else {
        let rest = words.drop_first();
        lemma_descend_split(index(value, words[0]), rest, n - 1);
        assert(rest.take(n - 1) =~= words.take(n).drop_first());
        assert(rest.skip(n - 1) =~= words.skip(n));
        assert(words.take(n)[0] == words[0]);
    }
}

/// Where the keys up to some key select `Null`, as they do where a key is
/// not bound, the whole path selects `Null`.
pub proof fn lemma_absent_segment(
    segments: Seq<Segment>,
    numbers: Seq<NumberView>,
    document: Json,
    n: int,
)
    requires
        forall|i: int| 0 <= i < segments.len() ==> is_word((#[trigger] segments[i]).word),
        0 <= n <= segments.len(),
        descend(document, segment_words(segments).take(n)) == Json::Null,
    ensures
        evaluate(path_text(segments), numbers, document) == Ok::<
            Result<Json, EvalError>,
            ParseError,
        >(Ok(Json::Null)),
{
    lemma_path_selects(segments, numbers, document);
    lemma_descend_split(document, segment_words(segments), n);
    lemma_descend_null(segment_words(segments).skip(n));
}

/// Keys written after dots and the same keys written in brackets select the
/// same value from every document.
pub proof fn lemma_bracket_dot_equivalence(
    words: Seq<Seq<char>>,
    numbers: Seq<NumberView>,
    document: Json,
)
    requires
        forall|i: int| 0 <= i < words.len() ==> is_word(#[trigger] words[i]),
    ensures
        evaluate(path_text(uniform_segments(words, false)), numbers, document) == evaluate(
            path_text(uniform_segments(words, true)),
            numbers,
            document,
        ),
        evaluate(path_text(uniform_segments(words, false)), numbers, document) is Ok,
{
    lemma_path_selects(uniform_segments(words, false), numbers, document);
    lemma_path_selects(uniform_segments(words, true), numbers, document);
    assert(segment_words(uniform_segments(words, false)) =~= words);
    assert(segment_words(uniform_segments(words, true)) =~= words);
}

/// The test that keeps the elements in which `key` has a value other than
/// `Null`.
pub open spec fn has_value(key: Seq<char>) -> spec_fn(Json) -> bool {
    |element: Json| !(index(element, key) is Null)
}

/// The test that keeps the elements in which the value of `key` equals
/// `value`, or differs from it where `negated`.
pub open spec fn compares(key: Seq<char>, value: Json, negated: bool) -> spec_fn(Json) -> bool {
    |element: Json| json_equal(index(element, key), value) != negated
}

/// The value of a literal: a word is a string, and a number has the value
/// that `numbers` holds for its text, if it holds one.
pub open spec fn value_of(numbers: Seq<NumberView>, literal: Literal) -> Option<Json> {
    match literal {
        Literal::Word { word } => Some(Json::String(word)),
        _ => literal_value(numbers, literal_text(literal)),
    }
}

/// Where every element can be tested, a filter keeps the elements that pass,
/// in their order.
pub proof fn lemma_filter_elements(
    env: Env,
    elements: Seq<Json>,
    from: int,
    inner: Tree,
    test: spec_fn(Json) -> bool,
)
    requires
        0 <= from <= elements.len(),
        forall|i: int|
            0 <= i < elements.len() ==> should_filter(env, #[trigger] elements[i], inner) == Ok::<
                bool,
                EvalError,
            >(test(elements[i])),
    ensures
        filter_elements(env, elements, from, inner) == Ok::<Seq<Json>, EvalError>(
            elements.skip(from).filter(test),
        ),
    decreases elements.len() - from,
{
    if from < elements.len() {
        lemma_filter_elements(env, elements, from + 1, inner, test);
        let element = elements[from];
        let rest = elements.skip(from + 1);
        assert(should_filter(env, element, inner) == Ok::<bool, EvalError>(test(element)));
        assert(elements.skip(from) =~= seq![element] + rest);
        rest.lemma_filter_prepend(element, test);
        assert(Seq::<Json>::empty() + rest.filter(test) =~= rest.filter(test));
        assert(filter_elements(env, elements, from, inner) == Ok::<Seq<Json>, EvalError>(
            if test(element) {
                seq![element] + rest.filter(test)
            } else {
                rest.filter(test)
            },
        ));
    } else {
        assert(elements.skip(from).len() == 0);
        assert(elements.skip(from).filter(test) =~= Seq::<Json>::empty()) by {
            reveal(Seq::filter);
        }
    }
}

/// A filter path run over a document in which the words lead to an array:
/// the array of the elements that pass the test of the filter.
pub proof fn lemma_filter_path_keeps(
    env: Env,
    document: Json,
    tree: Tree,
    words: Seq<Seq<char>>,
    inner: Tree,
    elements: Seq<Json>,
    test: spec_fn(Json) -> bool,
)
    requires
        is_filter_path(tree, words, inner),
        descend(document, words) == Json::Array(elements),
        forall|i: int|
            0 <= i < elements.len() ==> should_filter(env, #[trigger] elements[i], inner) == Ok::<
                bool,
                EvalError,
            >(test(elements[i])),
    ensures
        eval_path(env, document, tree) == Ok::<Json, EvalError>(
            Json::Array(elements.filter(test)),
        ),
{
    let n = words.len() as int;
    let kept = Json::Array(elements.filter(test));
    lemma_word_keys_descend(env, document, tree, words, 0);
    assert(words.skip(0) =~= words);
    lemma_filter_elements(env, elements, 0, inner, test);
    assert(elements.skip(0) =~= elements);
    let f = tree.children[n].children[0];
    assert(eval_filter(env, Json::Array(elements), f) == Ok::<Json, EvalError>(kept));
    assert(eval_key(env, Json::Array(elements), tree.children[n]) == Ok::<Json, EvalError>(kept));
    assert(eval_keys(env, kept, tree, n + 1) == Ok::<Json, EvalError>(kept));
    assert(eval_keys(env, Json::Array(elements), tree, n) == Ok::<Json, EvalError>(kept));
}

/// A filter value of one key selects what indexing by the key gives.
pub proof fn lemma_key_value_selects(env: Env, element: Json, value: Tree, key: Seq<char>)
    requires
        is_key_value(value, key),
    ensures
        eval_filter_value(env, element, value) == Ok::<Json, EvalError>(index(element, key)),
{
    assert(value.children.take(1) =~= value.children);
    lemma_word_keys_descend(env, element, value, seq![key], 0);
    assert(seq![key].skip(0) =~= seq![key]);
    assert(seq![key].drop_first() =~= Seq::<Seq<char>>::empty());
    assert(descend(index(element, key), Seq::<Seq<char>>::empty()) == index(element, key));
    assert(eval_keys(env, index(element, key), value, 1) == Ok::<Json, EvalError>(
        index(element, key),
    ));
}

/// An existence filter: where the segments lead to an array,
/// `$.a.b[?(@.key)]` selects the elements of the array in which `key` is
/// bound to a value other than `Null`, in their order.
pub proof fn lemma_filter_exists(
    segments: Seq<Segment>,
    key: Seq<char>,
    numbers: Seq<NumberView>,
    document: Json,
    elements: Seq<Json>,
)
    requires
        forall|i: int| 0 <= i < segments.len() ==> is_word((#[trigger] segments[i]).word),
        is_word(key),
        descend(document, segment_words(segments)) == Json::Array(elements),
    ensures
        evaluate(exists_query(segments, key), numbers, document) == Ok::<
            Result<Json, EvalError>,
            ParseError,
        >(Ok(Json::Array(elements.filter(has_value(key))))),
{
    lemma_exists_query(segments, key);
    let tree = sentence(Rule::JsonPath, exists_query(segments, key))->Ok_0;
    let inner = filter_inner(tree);
    let env = Env { root: document, numbers };
    assert forall|i: int| 0 <= i < elements.len() implies should_filter(
        env,
        #[trigger] elements[i],
        inner,
    ) == Ok::<bool, EvalError>(has_value(key)(elements[i])) by {
        lemma_key_value_selects(env, elements[i], inner, key);
    }
    lemma_filter_path_keeps(
        env,
        document,
        tree,
        segment_words(segments),
        inner,
        elements,
        has_value(key),
    );
}

/// An equality filter: where the segments lead to an array,
/// `$.a.b[?(@.key == literal)]` selects the elements of the array in which
/// the value of `key` equals the value of the literal, and
/// `$.a.b[?(@.key != literal)]` those in which it does not, in their order.
pub proof fn lemma_filter_compare(
    segments: Seq<Segment>,
    key: Seq<char>,
    negated: bool,
    literal: Literal,
    numbers: Seq<NumberView>,
    document: Json,
    elements: Seq<Json>,
)
    requires
        forall|i: int| 0 <= i < segments.len() ==> is_word((#[trigger] segments[i]).word),
        is_word(key),
        is_literal(literal),
        value_of(numbers, literal) is Some,
        descend(document, segment_words(segments)) == Json::Array(elements),
    ensures
        evaluate(compare_query(segments, key, negated, literal), numbers, document) == Ok::<
            Result<Json, EvalError>,
            ParseError,
        >(
            Ok(
                Json::Array(
                    elements.filter(compares(key, value_of(numbers, literal)->0, negated)),
                ),
            ),
        ),
{
    lemma_compare_query(segments, key, negated, literal);
    let value = value_of(numbers, literal)->0;
    let tree = sentence(Rule::JsonPath, compare_query(segments, key, negated, literal))->Ok_0;
    let inner = filter_inner(tree);
    let env = Env { root: document, numbers };
    let test = compares(key, value, negated);
    assert forall|i: int| 0 <= i < elements.len() implies should_filter(
        env,
        #[trigger] elements[i],
        inner,
    ) == Ok::<bool, EvalError>(test(elements[i])) by {
        lemma_key_value_selects(env, elements[i], inner.children[0], key);
        assert(eval_operand(env, elements[i], inner.children[2]) == Ok::<Json, EvalError>(value));
        assert(apply_operator(
            equality_rule(negated),
            json_equal(index(elements[i], key), value),
        ) == Ok::<bool, EvalError>(test(elements[i])));
    }
    lemma_filter_path_keeps(env, document, tree, segment_words(segments), inner, elements, test);
}

/// The elements that `!=` keeps are those that `==` does not keep.
pub proof fn lemma_inequality_complements(key: Seq<char>, value: Json, element: Json)
    ensures
        compares(key, value, true)(element) == !compares(key, value, false)(element),
{
}

/// Only a float equals a float, and only one of the same value; no integer
/// and no string does.
pub proof fn lemma_float_fidelity(value: Json, bits: u64)
    ensures
        json_equal(value, Json::Number(Number::Float(bits))) <==> (value matches Json::Number(
            Number::Float(other),
        ) && float_equal(other, bits)),
{
}

/// A numeric literal that reads as a finite float is that float, whatever
/// its text would read as otherwise, so it equals no integer.
pub proof fn lemma_literal_is_float(text: Seq<char>, bits: u64, value: Json)
    requires
        float_is_finite(bits),
    ensures
        literal_number(text, Some(bits)) == Some(Json::Number(Number::Float(bits))),
        json_equal(value, literal_number(text, Some(bits))->0) ==> (value matches Json::Number(
            Number::Float(other),
        ) && float_equal(other, bits)),
{
}

/// What a path in brackets makes of the value that it selects from the
/// root: a string indexes `context`, anything else is refused.
pub open spec fn index_by(context: Json, name: Json) -> Result<Json, EvalError> {
    match name {
        Json::String(text) => Ok(index(context, text)),
        _ => Err(EvalError::KeyNotString),
    }
}

/// A path in brackets is evaluated from the root of the document, whatever
/// the keys before it have selected, and its result, not its text, is the
/// key: `$.a.b[$.c.d]` indexes what `$.a.b` selects by the string that
/// `$.c.d` selects.
pub proof fn lemma_dynamic_key(
    segments: Seq<Segment>,
    name: Seq<Segment>,
    numbers: Seq<NumberView>,
    document: Json,
)
    requires
        forall|i: int| 0 <= i < segments.len() ==> is_word((#[trigger] segments[i]).word),
        forall|i: int| 0 <= i < name.len() ==> is_word((#[trigger] name[i]).word),
    ensures
        evaluate(dynamic_query(segments, name), numbers, document) == Ok::<
            Result<Json, EvalError>,
            ParseError,
        >(
            index_by(
                descend(document, segment_words(segments)),
                descend(document, segment_words(name)),
            ),
        ),
{
    lemma_dynamic_query(segments, name);
    let tree = sentence(Rule::JsonPath, dynamic_query(segments, name))->Ok_0;
    let env = Env { root: document, numbers };
    let words = segment_words(segments);
    let names = segment_words(name);
    let n = words.len() as int;
    let k = tree.children[n];
    let inside = k.children[0];
    let context = descend(document, words);
    let selected = descend(document, names);
    lemma_word_keys_descend(env, document, tree, words, 0);
    assert(words.skip(0) =~= words);
    assert(inside.children.take(names.len() as int) =~= inside.children);
    lemma_word_keys_descend(env, document, inside, names, 0);
    assert(names.skip(0) =~= names);
    assert(eval_keys(env, selected, inside, names.len() as int) == Ok::<Json, EvalError>(
        selected,
    ));
    assert(eval_path(env, document, inside) == Ok::<Json, EvalError>(selected));
    assert(eval_key(env, context, k) == index_by(context, selected));
    match index_by(context, selected) {
        Ok(v) => {
            assert(eval_keys(env, v, tree, n + 1) == Ok::<Json, EvalError>(v));
        },
        Err(_) => {},
    }
    assert(eval_keys(env, context, tree, n) == index_by(context, selected));
}

/// A comparison by an operator that the grammar reserves is refused once
/// both of its operands are evaluated.
pub proof fn lemma_reserved_operator_refused(env: Env, context: Json, comparison: Tree)
    requires
        comparison.children.len() >= 3,
        eval_filter_value(env, context, comparison.children[0]) is Ok,
        eval_operand(env, context, comparison.children[2]) is Ok,
        is_reserved_operator(comparison.children[1].rule),
    ensures
        eval_filter_expression(env, context, comparison) == Err::<bool, EvalError>(
            EvalError::UnsupportedOperator { operator: comparison.children[1].rule },
        ),
{
}

} // verus!
