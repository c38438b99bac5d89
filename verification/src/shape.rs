//! The shape of the trees that the grammar gives, and why the evaluator
//! never finds such a tree malformed.

use crate::grammar::{
    char_at, filter, filter_expression, filter_value, in_class, integer, key, keys, keys_end,
    number, operand, operator, production, quoted, root_path, run_end, sentence, token, word,
    CharClass, Rule, Tree,
};
use crate::semantics::{
    eval_filter, eval_filter_expression, eval_filter_value, eval_key, eval_keys, eval_operand,
    eval_path, filter_elements, should_filter, Env, EvalError,
};
use crate::value::Json;
use vstd::prelude::*;

verus! {

/// Whether `rule` is one of the operators of a comparison.
pub open spec fn is_operator(rule: Rule) -> bool {
    rule == Rule::FilterEqual || rule == Rule::FilterNotEqual || rule == Rule::FilterLess || rule
        == Rule::FilterLessEqual || rule == Rule::FilterGreater || rule
        == Rule::FilterGreaterEqual || rule == Rule::FilterRegex || rule == Rule::FilterIn || rule
        == Rule::FilterNin || rule == Rule::FilterSubsetof || rule == Rule::FilterSize || rule
        == Rule::FilterEmpty
}

/// Whether the production of a node can stand on the right of a comparison.
pub open spec fn is_operand(rule: Rule) -> bool {
    rule == Rule::FilterValue || rule == Rule::Word || rule == Rule::Number
}

/// Whether the productions under a path, a key, a filter or a comparison
/// are those that the grammar puts there, all the way down.
pub open spec fn well_formed(tree: Tree) -> bool
    decreases tree,
{
    match tree.rule {
        Rule::RootPath | Rule::FilterValue => forall|i: int|
            0 <= i < tree.children.len() ==> (#[trigger] tree.children[i]).rule == Rule::Key
                && well_formed(tree.children[i]),
        Rule::Key => {
            &&& tree.children.len() == 1
            &&& tree.children[0].rule == Rule::Word || tree.children[0].rule == Rule::RootPath
                || tree.children[0].rule == Rule::Filter
            &&& well_formed(tree.children[0])
        },
        Rule::Filter => {
            &&& tree.children.len() == 1
            &&& tree.children[0].rule == Rule::FilterValue || tree.children[0].rule
                == Rule::FilterExpression
            &&& well_formed(tree.children[0])
        },
        Rule::FilterExpression => {
            &&& tree.children.len() == 3
            &&& tree.children[0].rule == Rule::FilterValue
            &&& well_formed(tree.children[0])
            &&& is_operator(tree.children[1].rule)
            &&& is_operand(tree.children[2].rule)
            &&& well_formed(tree.children[2])
        },
        _ => true,
    }
}

/// The texts of the numeric literals of the trees from the one at `from` on,
/// in the order of the input.
pub open spec fn number_texts_from(tree: Tree, from: int) -> Seq<Seq<char>>
    decreases tree, tree.children.len() - from,
{
    if from < 0 || from >= tree.children.len() {
        Seq::empty()
    } else {
        number_texts(tree.children[from]) + number_texts_from(tree, from + 1)
    }
}

/// The texts of the numeric literals of a tree, in the order of the input.
pub open spec fn number_texts(tree: Tree) -> Seq<Seq<char>>
    decreases tree, tree.children.len() + 1,
{
    if tree.rule == Rule::Number {
        seq![tree.text]
    } else {
        number_texts_from(tree, 0)
    }
}


/// Whether a result is anything but the report of a malformed tree.
pub open spec fn not_malformed<T>(r: Result<T, EvalError>) -> bool {
    !(r matches Err(EvalError::Malformed))
}

/// A run of characters ends inside the input.
pub proof fn lemma_run_end_bounds(s: Seq<char>, pos: int, class: CharClass)
    requires
        0 <= pos <= s.len(),
    ensures
        pos <= run_end(s, pos, class) <= s.len(),
    decreases s.len() - pos,
{
    if pos < s.len() && in_class(class, s[pos]) {
        lemma_run_end_bounds(s, pos + 1, class);
    }
}

/// A number ends inside the input, after its start.
pub proof fn lemma_number_shape(s: Seq<char>, pos: int)
    requires
        0 <= pos <= s.len(),
    ensures
        number(s, pos) matches Some(n) ==> n.rule == Rule::Number && pos < n.end <= s.len(),
{
    lemma_run_end_bounds(s, pos, CharClass::Digit);
    match integer(s, pos) {
        Some(whole) => match token(Rule::Dot, s, whole.end) {
            Some(dot) => {
                lemma_run_end_bounds(s, dot.end, CharClass::Digit);
            },
            None => {},
        },
        None => {},
    }
}

/// A word in quotes ends inside the input, before its closing quote.
pub proof fn lemma_quoted_shape(s: Seq<char>, pos: int, quote: char)
    requires
        0 <= pos <= s.len(),
    ensures
        quoted(s, pos, quote) matches Some(w) ==> w.rule == Rule::Word && pos + 1 < w.end
            < s.len(),
{
    if char_at(s, pos, quote) {
        lemma_run_end_bounds(s, pos + 1, CharClass::Word);
    }
}

/// An operator is one of the twelve, and ends inside the input.
pub proof fn lemma_operator_shape(s: Seq<char>, pos: int)
    requires
        0 <= pos <= s.len(),
    ensures
        operator(s, pos) matches Some(op) ==> is_operator(op.rule) && pos <= op.end <= s.len(),
{
}

/// The keys that the grammar finds are keys, well formed, and end inside the
/// input.
pub proof fn lemma_keys_shape(s: Seq<char>, pos: int)
    requires
        0 <= pos <= s.len(),
    ensures
        forall|i: int|
            0 <= i < keys(s, pos).len() ==> (#[trigger] keys(s, pos)[i]).rule == Rule::Key
                && well_formed(keys(s, pos)[i]),
        pos <= keys_end(keys(s, pos), pos) <= s.len(),
    decreases s.len() - pos, 1int,
{
    lemma_key_shape(s, pos);
    match key(s, pos) {
        Some(k) => {
            lemma_keys_shape(s, k.end);
            let more = keys(s, k.end);
            let all = keys(s, pos);
            assert(all == seq![k] + more);
            assert forall|i: int| 0 <= i < all.len() implies (#[trigger] all[i]).rule == Rule::Key
                && well_formed(all[i]) by {
                if i > 0 {
                    assert(all[i] == more[i - 1]);
                }
            }
            if more.len() > 0 {
                assert(all.last() == more.last());
            } else {
                assert(all.last() == k);
            }
        },
        None => {},
    }
}

/// A key is well formed and ends inside the input, after its start.
pub proof fn lemma_key_shape(s: Seq<char>, pos: int)
    requires
        0 <= pos <= s.len(),
    ensures
        key(s, pos) matches Some(k) ==> k.rule == Rule::Key && well_formed(k) && pos < k.end
            <= s.len(),
    decreases s.len() - pos, 0int,
{
    if char_at(s, pos, '.') {
        lemma_run_end_bounds(s, pos + 1, CharClass::Word);
        match word(s, pos + 1) {
            Some(w) => {
                assert(well_formed(w));
            },
            None => {},
        }
    } else if char_at(s, pos, '[') {
        lemma_quoted_shape(s, pos + 1, '"');
        lemma_root_path_shape(s, pos + 1);
        lemma_filter_shape(s, pos + 1);
        match quoted(s, pos + 1, '"') {
            Some(w) => {
                assert(well_formed(w));
            },
            None => {},
        }
    }
}

/// A root path is well formed and ends inside the input, after its start.
pub proof fn lemma_root_path_shape(s: Seq<char>, pos: int)
    requires
        0 <= pos <= s.len(),
    ensures
        root_path(s, pos) matches Some(p) ==> p.rule == Rule::RootPath && well_formed(p) && pos
            < p.end <= s.len(),
    decreases s.len() - pos, 0int,
{
    if char_at(s, pos, '$') {
        lemma_keys_shape(s, pos + 1);
    }
}

/// A filter value is well formed and ends inside the input, after its start.
pub proof fn lemma_filter_value_shape(s: Seq<char>, pos: int)
    requires
        0 <= pos <= s.len(),
    ensures
        filter_value(s, pos) matches Some(v) ==> v.rule == Rule::FilterValue && well_formed(v)
            && pos < v.end <= s.len(),
    decreases s.len() - pos, 0int,
{
    if char_at(s, pos, '@') {
        lemma_keys_shape(s, pos + 1);
    }
}

/// A filter is well formed and ends inside the input, after its start.
pub proof fn lemma_filter_shape(s: Seq<char>, pos: int)
    requires
        0 <= pos <= s.len(),
    ensures
        filter(s, pos) matches Some(f) ==> f.rule == Rule::Filter && well_formed(f) && pos < f.end
            <= s.len(),
    decreases s.len() - pos, 0int,
{
    if char_at(s, pos, '?') && char_at(s, pos + 1, '(') {
        lemma_filter_expression_shape(s, pos + 2);
        lemma_filter_value_shape(s, pos + 2);
    }
}

/// The right operand of a comparison is a filter value, a word or a number,
/// well formed, and ends inside the input, after its start.
pub proof fn lemma_operand_shape(s: Seq<char>, pos: int)
    requires
        0 <= pos <= s.len(),
    ensures
        operand(s, pos) matches Some(right) ==> is_operand(right.tree.rule) && well_formed(
            right.tree,
        ) && pos < right.end <= s.len(),
    decreases s.len() - pos, 1int,
{
    lemma_filter_value_shape(s, pos);
    lemma_quoted_shape(s, pos, '\'');
    lemma_number_shape(s, pos);
    match operand(s, pos) {
        Some(right) => {
            if right.tree.rule != Rule::FilterValue {
                assert(well_formed(right.tree));
            }
        },
        None => {},
    }
}

/// A comparison is well formed and ends inside the input, after its start;
/// its right operand starts after the start of the comparison.
pub proof fn lemma_filter_expression_shape(s: Seq<char>, pos: int)
    requires
        0 <= pos <= s.len(),
    ensures
        filter_expression(s, pos) matches Some(e) ==> e.rule == Rule::FilterExpression
            && well_formed(e) && pos < e.end <= s.len(),
        filter_value(s, pos) matches Some(left) ==> (operator(
            s,
            run_end(s, left.end, CharClass::Space),
        ) matches Some(op) ==> pos < run_end(s, op.end, CharClass::Space) <= s.len()),
    decreases s.len() - pos, 1int,
{
    lemma_filter_value_shape(s, pos);
    match filter_value(s, pos) {
        Some(left) => {
            lemma_run_end_bounds(s, left.end, CharClass::Space);
            let before = run_end(s, left.end, CharClass::Space);
            lemma_operator_shape(s, before);
            match operator(s, before) {
                Some(op) => {
                    lemma_run_end_bounds(s, op.end, CharClass::Space);
                    let at = run_end(s, op.end, CharClass::Space);
                    lemma_operand_shape(s, at);
                },
                None => {},
            }
        },
        None => {},
    }
}

/// The tree of a query is a well-formed root path.
pub proof fn lemma_query_shape(s: Seq<char>)
    ensures
        sentence(Rule::JsonPath, s) matches Ok(tree) ==> tree.rule == Rule::RootPath
            && well_formed(tree),
{
    lemma_root_path_shape(s, 0);
}

/// Keys that are well formed are never found malformed.
pub proof fn lemma_keys_total(env: Env, context: Json, path: Tree, from: int)
    requires
        forall|i: int|
            0 <= i < path.children.len() ==> (#[trigger] path.children[i]).rule == Rule::Key
                && well_formed(path.children[i]),
    ensures
        not_malformed(eval_keys(env, context, path, from)),
    decreases path, path.children.len() - from,
{
    if 0 <= from < path.children.len() {
        lemma_key_total(env, context, path.children[from]);
        match eval_key(env, context, path.children[from]) {
            Ok(next) => {
                lemma_keys_total(env, next, path, from + 1);
            },
            Err(_) => {},
        }
    }
}

/// A path that is well formed is never found malformed.
pub proof fn lemma_path_total(env: Env, context: Json, path: Tree)
    requires
        path.rule == Rule::RootPath || path.rule == Rule::FilterValue,
        well_formed(path),
    ensures
        not_malformed(eval_path(env, context, path)),
    decreases path, path.children.len() + 1,
{
    lemma_keys_total(env, context, path, 0);
}

/// A key that is well formed is never found malformed.
pub proof fn lemma_key_total(env: Env, context: Json, key: Tree)
    requires
        key.rule == Rule::Key,
        well_formed(key),
    ensures
        not_malformed(eval_key(env, context, key)),
    decreases key, 0int,
{
    let child = key.children[0];
    if child.rule == Rule::RootPath {
        lemma_path_total(env, env.root, child);
    } else if child.rule == Rule::Filter {
        lemma_filter_total(env, context, child);
    }
}

/// A filter that is well formed is never found malformed.
pub proof fn lemma_filter_total(env: Env, context: Json, filter: Tree)
    requires
        filter.rule == Rule::Filter,
        well_formed(filter),
    ensures
        not_malformed(eval_filter(env, context, filter)),
    decreases filter, 0int,
{
    let inner = filter.children[0];
    match context {
        Json::Array(elements) => {
            lemma_elements_total(env, elements, 0, inner);
        },
        _ => {},
    }
}

/// Testing the elements of an array never finds the test malformed.
pub proof fn lemma_elements_total(env: Env, elements: Seq<Json>, from: int, inner: Tree)
    requires
        inner.rule == Rule::FilterValue || inner.rule == Rule::FilterExpression,
        well_formed(inner),
    ensures
        not_malformed(filter_elements(env, elements, from, inner)),
    decreases inner, inner.children.len() + 6 + elements.len() - from,
{
    if 0 <= from < elements.len() {
        lemma_should_filter_total(env, elements[from], inner);
        lemma_elements_total(env, elements, from + 1, inner);
    }
}

/// Testing one element never finds the test malformed.
pub proof fn lemma_should_filter_total(env: Env, element: Json, inner: Tree)
    requires
        inner.rule == Rule::FilterValue || inner.rule == Rule::FilterExpression,
        well_formed(inner),
    ensures
        not_malformed(should_filter(env, element, inner)),
    decreases inner, inner.children.len() + 5,
{
    if inner.rule == Rule::FilterValue {
        lemma_filter_value_total(env, element, inner);
    } else {
        lemma_expression_total(env, element, inner);
    }
}

/// A filter value that is well formed is never found malformed.
pub proof fn lemma_filter_value_total(env: Env, context: Json, node: Tree)
    requires
        node.rule == Rule::FilterValue,
        well_formed(node),
    ensures
        not_malformed(eval_filter_value(env, context, node)),
    decreases node, node.children.len() + 2,
{
    lemma_path_total(env, context, node);
}

/// An operand that is well formed is never found malformed.
pub proof fn lemma_operand_total(env: Env, context: Json, node: Tree)
    requires
        is_operand(node.rule),
        well_formed(node),
    ensures
        not_malformed(eval_operand(env, context, node)),
    decreases node, node.children.len() + 3,
{
    if node.rule == Rule::FilterValue {
        lemma_filter_value_total(env, context, node);
    }
}

/// A comparison that is well formed is never found malformed.
pub proof fn lemma_expression_total(env: Env, context: Json, node: Tree)
    requires
        node.rule == Rule::FilterExpression,
        well_formed(node),
    ensures
        not_malformed(eval_filter_expression(env, context, node)),
    decreases node, node.children.len() + 4,
{
    lemma_filter_value_total(env, context, node.children[0]);
    lemma_operand_total(env, context, node.children[2]);
}

} // verus!
