//! What a syntax tree means: the value it selects from a document, as
//! functions over the views of trees and values.

use crate::grammar::{sentence, ParseError, Rule, Tree};
use crate::value::{index, json_equal, Json};
use vstd::prelude::*;

verus! {

/// Why a tree cannot be evaluated.
#[derive(Clone, Copy, Debug, PartialEq, Eq, Structural)]
pub enum EvalError {
    /// A comparison uses an operator that the grammar reserves and the
    /// evaluator does not support.
    UnsupportedOperator { operator: Rule },
    /// A filter is applied to a value that is no array.
    NotAnArray,
    /// The path inside a bracket selects a value that is no string, so it
    /// names no key.
    KeyNotString,
    /// A numeric literal has no value: its text could not be read as a
    /// number.
    InvalidNumber,
    /// The tree has a shape that the grammar never produces.
    Malformed,
}

/// A numeric literal of a query: its text, and the value that it was read
/// as, if it could be read.
pub struct NumberView {
    pub text: Seq<char>,
    pub value: Option<Json>,
}

/// What a path is evaluated in: the document that `$` stands for, and the
/// numeric literals of the query.
pub struct Env {
    pub root: Json,
    pub numbers: Seq<NumberView>,
}

/// The index of the first literal at or after `from` whose text is `text`,
/// or the number of literals when there is none.
pub open spec fn literal_from(numbers: Seq<NumberView>, text: Seq<char>, from: int) -> int
    decreases numbers.len() - from,
{
    if from < 0 || from >= numbers.len() {
        numbers.len() as int
    } else if numbers[from].text == text {
        from
    } else {
        literal_from(numbers, text, from + 1)
    }
}

/// The value of the first literal whose text is `text`, if there is such a
/// literal and it has a value.
pub open spec fn literal_value(numbers: Seq<NumberView>, text: Seq<char>) -> Option<Json> {
    let p = literal_from(numbers, text, 0);
    if p < numbers.len() {
        numbers[p].value
    } else {
        None
    }
}

/// Whether `rule` is one of the operators that the evaluator does not
/// support.
pub open spec fn is_reserved_operator(rule: Rule) -> bool {
    rule == Rule::FilterLess || rule == Rule::FilterLessEqual || rule == Rule::FilterGreater
        || rule == Rule::FilterGreaterEqual || rule == Rule::FilterRegex || rule == Rule::FilterIn
        || rule == Rule::FilterNin || rule == Rule::FilterSubsetof || rule == Rule::FilterSize
        || rule == Rule::FilterEmpty
}

/// The value of a numeric literal.
pub open spec fn number_value(env: Env, literal: Tree) -> Result<Json, EvalError> {
    match literal_value(env.numbers, literal.text) {
        Some(v) => Ok(v),
        None => Err(EvalError::InvalidNumber),
    }
}

/// The keys of `path` from the one at `from` on, applied in turn to
/// `context`.
pub open spec fn eval_keys(env: Env, context: Json, path: Tree, from: int) -> Result<
    Json,
    EvalError,
>
    decreases path, path.children.len() - from,
{
    if from < 0 || from >= path.children.len() {
        Ok(context)
    } else if path.children[from].rule != Rule::Key {
        Err(EvalError::Malformed)
    } else {
        match eval_key(env, context, path.children[from]) {
            Ok(next) => eval_keys(env, next, path, from + 1),
            Err(e) => Err(e),
        }
    }
}

/// The value that the keys of `path` select from `context`.
pub open spec fn eval_path(env: Env, context: Json, path: Tree) -> Result<Json, EvalError>
    decreases path, path.children.len() + 1,
{
    eval_keys(env, context, path, 0)
}

/// One key applied to `context`. A word indexes `context`; a path in
/// brackets is evaluated from the root document and its result, a string,
/// indexes `context`; a filter selects from the array `context`.
pub open spec fn eval_key(env: Env, context: Json, key: Tree) -> Result<Json, EvalError>
    decreases key, 0int,
{
    if key.children.len() == 0 {
        Err(EvalError::Malformed)
    } else {
        let child = key.children[0];
        match child.rule {
            Rule::RootPath => match eval_path(env, env.root, child) {
                Ok(Json::String(name)) => Ok(index(context, name)),
                Ok(_) => Err(EvalError::KeyNotString),
                Err(e) => Err(e),
            },
            Rule::Word => Ok(index(context, child.text)),
            Rule::Filter => eval_filter(env, context, child),
            _ => Err(EvalError::Malformed),
        }
    }
}

/// A filter applied to `context`: the array of the elements that the
/// filter keeps, in their order.
pub open spec fn eval_filter(env: Env, context: Json, filter: Tree) -> Result<Json, EvalError>
    decreases filter, 0int,
{
    if filter.children.len() == 0 {
        Err(EvalError::Malformed)
    } else {
        match context {
            Json::Array(elements) => match filter_elements(
                env,
                elements,
                0,
                filter.children[0],
            ) {
                Ok(kept) => Ok(Json::Array(kept)),
                Err(e) => Err(e),
            },
            _ => Err(EvalError::NotAnArray),
        }
    }
}

/// The elements from the one at `from` on that `inner` keeps. The first
/// element that cannot be tested decides the error.
pub open spec fn filter_elements(env: Env, elements: Seq<Json>, from: int, inner: Tree) -> Result<
    Seq<Json>,
    EvalError,
>
    decreases inner, inner.children.len() + 6 + elements.len() - from,
{
    if from < 0 || from >= elements.len() {
        Ok(Seq::empty())
    } else {
        match should_filter(env, elements[from], inner) {
            Ok(keep) => match filter_elements(env, elements, from + 1, inner) {
                Ok(rest) => Ok(
                    if keep {
                        seq![elements[from]] + rest
                    } else {
                        rest
                    },
                ),
                Err(e) => Err(e),
            },
            Err(e) => Err(e),
        }
    }
}

/// Whether a filter keeps `element`: a filter value asks that the value it
/// selects is not `Null`, a comparison that it holds.
pub open spec fn should_filter(env: Env, element: Json, inner: Tree) -> Result<bool, EvalError>
    decreases inner, inner.children.len() + 5,
{
    match inner.rule {
        Rule::FilterValue => match eval_filter_value(env, element, inner) {
            Ok(v) => Ok(!(v is Null)),
            Err(e) => Err(e),
        },
        Rule::FilterExpression => eval_filter_expression(env, element, inner),
        _ => Err(EvalError::Malformed),
    }
}

/// The value that a filter value selects from `context`, the element under
/// test.
pub open spec fn eval_filter_value(env: Env, context: Json, node: Tree) -> Result<Json, EvalError>
    decreases node, node.children.len() + 2,
{
    if node.rule == Rule::FilterValue {
        eval_path(env, context, node)
    } else {
        Err(EvalError::Malformed)
    }
}

/// The right operand of a comparison.
pub open spec fn eval_operand(env: Env, context: Json, node: Tree) -> Result<Json, EvalError>
    decreases node, node.children.len() + 3,
{
    match node.rule {
        Rule::FilterValue => eval_filter_value(env, context, node),
        Rule::Word => Ok(Json::String(node.text)),
        Rule::Number => number_value(env, node),
        _ => Err(EvalError::Malformed),
    }
}

/// What an operator makes of two operands that are equal or not.
pub open spec fn apply_operator(operator: Rule, equal: bool) -> Result<bool, EvalError> {
    if operator == Rule::FilterEqual {
        Ok(equal)
    } else if operator == Rule::FilterNotEqual {
        Ok(!equal)
    } else if is_reserved_operator(operator) {
        Err(EvalError::UnsupportedOperator { operator })
    } else {
        Err(EvalError::Malformed)
    }
}

/// Whether a comparison holds of `context`, the element under test. The left
/// operand is evaluated first, then the right one, then the operator is
/// applied.
pub open spec fn eval_filter_expression(env: Env, context: Json, node: Tree) -> Result<
    bool,
    EvalError,
>
    decreases node, node.children.len() + 4,
{
    if node.children.len() < 3 {
        Err(EvalError::Malformed)
    } else {
        match eval_filter_value(env, context, node.children[0]) {
            Ok(left) => match eval_operand(env, context, node.children[2]) {
                Ok(right) => apply_operator(node.children[1].rule, json_equal(left, right)),
                Err(e) => Err(e),
            },
            Err(e) => Err(e),
        }
    }
}

/// What a query gives over a document: what parsing it and running it from
/// the root of the document gives, where `numbers` holds the values of its
/// numeric literals.
pub open spec fn evaluate(query: Seq<char>, numbers: Seq<NumberView>, document: Json) -> Result<
    Result<Json, EvalError>,
    ParseError,
> {
    match sentence(Rule::JsonPath, query) {
        Ok(tree) => Ok(eval_path(Env { root: document, numbers }, document, tree)),
        Err(e) => Err(e),
    }
}

} // verus!
