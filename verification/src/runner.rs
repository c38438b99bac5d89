//! The evaluator: a query parsed once, and run over any number of documents.

use crate::grammar::{lemma_view_children, sentence, Node, ParseError, Rule, Tree};
use crate::number::{literal_number, number_of};
use crate::parser::parse;
use crate::semantics::{
    eval_filter, eval_filter_expression, eval_filter_value, eval_key, eval_keys, eval_operand,
    eval_path, evaluate, filter_elements, literal_from, number_value, should_filter, Env,
    EvalError, NumberView,
};
use crate::shape::{
    lemma_path_total, lemma_query_shape, not_malformed, number_texts, number_texts_from,
    well_formed,
};
use crate::value::{items_view, Json, Value};
use vstd::prelude::*;

verus! {

/// The view of the result of an evaluation.
pub open spec fn json_result(r: Result<Value, EvalError>) -> Result<Json, EvalError> {
    match r {
        Ok(v) => Ok(v@),
        Err(e) => Err(e),
    }
}

/// The texts of a list of strings.
pub open spec fn texts_view(texts: Seq<String>) -> Seq<Seq<char>> {
    Seq::new(texts.len(), |i: int| texts[i]@)
}

/// A numeric literal of a query: its text, and the value that it was read
/// as, if it could be read.
#[derive(Debug)]
pub struct NumberLiteral {
    pub text: String,
    pub value: Option<Value>,
}

/// The view of a value that may be missing.
pub open spec fn option_view(value: Option<Value>) -> Option<Json> {
    match value {
        Some(v) => Some(v@),
        None => None,
    }
}

/// The view of a list of numeric literals.
pub open spec fn numbers_view(numbers: Seq<NumberLiteral>) -> Seq<NumberView> {
    Seq::new(
        numbers.len(),
        |i: int| NumberView { text: numbers[i].text@, value: option_view(numbers[i].value) },
    )
}

/// Whether `value` is what the literal `text` is worth where `float` is asked
/// how `text` reads as a float.
pub open spec fn reads<F: Fn(&str) -> Option<u64>>(
    float: F,
    text: Seq<char>,
    value: Option<Json>,
) -> bool {
    exists|t: &str, bits: Option<u64>|
        t@ == text && #[trigger] float.ensures((t,), bits) && value == literal_number(text, bits)
}

/// Whether `numbers` holds the numeric literals of `tree`, in the order of
/// the input, each with the value that it is worth where `float` is asked how
/// its text reads as a float.
pub open spec fn resolves<F: Fn(&str) -> Option<u64>>(
    float: F,
    tree: Tree,
    numbers: Seq<NumberView>,
) -> bool {
    &&& numbers.len() == number_texts(tree).len()
    &&& forall|i: int|
        0 <= i < numbers.len() ==> (#[trigger] numbers[i]).text == number_texts(tree)[i]
    &&& forall|i: int|
        0 <= i < numbers.len() ==> reads(
            float,
            number_texts(tree)[i],
            (#[trigger] numbers[i]).value,
        )
}

/// Why a query over a document gave no value.
#[derive(Clone, Copy, Debug, PartialEq, Eq, Structural)]
pub enum QueryError {
    /// The query is no sentence of the grammar.
    Path(ParseError),
    /// The query cannot be evaluated over the document.
    Eval(EvalError),
}

/// What the result of a query over a document says: whether the query was
/// parsed, and what its evaluation gave.
pub open spec fn outcome(r: Result<Value, QueryError>) -> Result<
    Result<Json, EvalError>,
    ParseError,
> {
    match r {
        Ok(v) => Ok(Ok(v@)),
        Err(QueryError::Eval(e)) => Ok(Err(e)),
        Err(QueryError::Path(e)) => Err(e),
    }
}

/// The index of the first literal whose text is `text`, or the number of
/// literals.
fn find_literal(numbers: &Vec<NumberLiteral>, text: &String) -> (r: usize)
    ensures
        r == literal_from(numbers_view(numbers@), text@, 0),
        r <= numbers.len(),
{
    let mut i: usize = 0;
    while i < numbers.len()
        invariant
            i <= numbers.len(),
            literal_from(numbers_view(numbers@), text@, 0) == literal_from(
                numbers_view(numbers@),
                text@,
                i as int,
            ),
        decreases numbers.len() - i,
    {
        if numbers[i].text == *text {
            return i;
        }
        i = i + 1;
    }
    i
}

/// Appends to `found` the texts of the numeric literals of `node`.
fn collect_numbers(node: &Node, found: &mut Vec<String>)
    ensures
        texts_view(final(found)@) == texts_view(old(found)@) + number_texts(node@),
    decreases node,
{
    proof {
        lemma_view_children(node);
    }
    if node.rule == Rule::Number {
        found.push(node.text.clone());
        assert(texts_view(found@) =~= texts_view(old(found)@) + seq![node@.text]);
    } else {
        let mut i: usize = 0;
        assert(texts_view(found@) + number_texts_from(node@, 0) =~= texts_view(old(found)@)
            + number_texts(node@));
        while i < node.children.len()
            invariant
                i <= node.children.len(),
                node@.children.len() == node.children.len(),
                forall|k: int|
                    0 <= k < node.children.len() ==> #[trigger] node@.children[k]
                        == node.children@[k]@,
                texts_view(found@) + number_texts_from(node@, i as int) == texts_view(old(found)@)
                    + number_texts(node@),
            decreases node.children.len() - i,
        {
            let ghost before = texts_view(found@);
            collect_numbers(&node.children[i], found);
            assert(node@.children[i as int] == node.children[i as int]@);
            assert((before + number_texts(node@.children[i as int])) + number_texts_from(
                node@,
                i + 1,
            ) =~= before + number_texts_from(node@, i as int));
            i = i + 1;
        }
        assert(texts_view(found@) + Seq::<Seq<char>>::empty() =~= texts_view(found@));
    }
}

/// The texts of the numeric literals of a tree, in the order of the input.
pub fn number_literals(node: &Node) -> (texts: Vec<String>)
    ensures
        texts_view(texts@) == number_texts(node@),
{
    let mut texts: Vec<String> = Vec::new();
    collect_numbers(node, &mut texts);
    assert(texts_view(Seq::<String>::empty()) + number_texts(node@) =~= number_texts(node@));
    texts
}

/// A query, parsed once, that can be run over any number of documents.
pub struct Runner {
    root: Value,
    ast: Node,
    numbers: Vec<NumberLiteral>,
}

impl Runner {
    /// The query is a well-formed root path.
    #[verifier::type_invariant]
    spec fn sound(&self) -> bool {
        self.ast@.rule == Rule::RootPath && well_formed(self.ast@)
    }

    /// The syntax tree of the query.
    pub closed spec fn tree(&self) -> Tree {
        self.ast@
    }

    /// The numeric literals of the query, in the order of the input.
    pub closed spec fn numbers(&self) -> Seq<NumberView> {
        numbers_view(self.numbers@)
    }

    /// The document of the last run; `Null` before the first.
    pub closed spec fn document(&self) -> Json {
        self.root@
    }

    /// What paths are evaluated in.
    pub open spec fn env(&self) -> Env {
        Env { root: self.document(), numbers: self.numbers() }
    }

    /// The value that a numeric literal got when the query was parsed.
    pub fn parse_number(&self, literal: &Node) -> (r: Result<Value, EvalError>)
        ensures
            json_result(r) == number_value(self.env(), literal@),
    {
        let p = find_literal(&self.numbers, &literal.text);
        if p < self.numbers.len() {
            match &self.numbers[p].value {
                Some(v) => Ok(v.clone()),
                None => Err(EvalError::InvalidNumber),
            }
        } else {
            Err(EvalError::InvalidNumber)
        }
    }

    /// The value that a filter value selects from `context`.
    pub fn filter_value(&self, context: &Value, node: &Node) -> (r: Result<Value, EvalError>)
        ensures
            json_result(r) == eval_filter_value(self.env(), context@, node@),
        decreases node, node.children.len() + 2,
    {
        if node.rule == Rule::FilterValue {
            self.eval_path(context.clone(), node)
        } else {
            Err(EvalError::Malformed)
        }
    }

    /// The right operand of a comparison.
    fn operand(&self, context: &Value, node: &Node) -> (r: Result<Value, EvalError>)
        ensures
            json_result(r) == eval_operand(self.env(), context@, node@),
        decreases node, node.children.len() + 3,
    {
        match node.rule {
            Rule::FilterValue => self.filter_value(context, node),
            Rule::Word => Ok(Value::String(node.text.clone())),
            Rule::Number => self.parse_number(node),
            _ => Err(EvalError::Malformed),
        }
    }

    /// Whether a comparison holds of `context`.
    pub fn filter_expression(&self, context: &Value, node: &Node) -> (r: Result<bool, EvalError>)
        ensures
            r == eval_filter_expression(self.env(), context@, node@),
        decreases node, node.children.len() + 4,
    {
        proof {
            lemma_view_children(node);
        }
        if node.children.len() < 3 {
            return Err(EvalError::Malformed);
        }
        let left = match self.filter_value(context, &node.children[0]) {
            Ok(v) => v,
            Err(e) => {
                return Err(e);
            },
        };
        let right = match self.operand(context, &node.children[2]) {
            Ok(v) => v,
            Err(e) => {
                return Err(e);
            },
        };
        let equal = left.equals(&right);
        match node.children[1].rule {
            Rule::FilterEqual => Ok(equal),
            Rule::FilterNotEqual => Ok(!equal),
            Rule::FilterLess => Err(EvalError::UnsupportedOperator { operator: Rule::FilterLess }),
            Rule::FilterLessEqual => Err(
                EvalError::UnsupportedOperator { operator: Rule::FilterLessEqual },
            ),
            Rule::FilterGreater => Err(
                EvalError::UnsupportedOperator { operator: Rule::FilterGreater },
            ),
            Rule::FilterGreaterEqual => Err(
                EvalError::UnsupportedOperator { operator: Rule::FilterGreaterEqual },
            ),
            Rule::FilterRegex => Err(
                EvalError::UnsupportedOperator { operator: Rule::FilterRegex },
            ),
            Rule::FilterIn => Err(EvalError::UnsupportedOperator { operator: Rule::FilterIn }),
            Rule::FilterNin => Err(EvalError::UnsupportedOperator { operator: Rule::FilterNin }),
            Rule::FilterSubsetof => Err(
                EvalError::UnsupportedOperator { operator: Rule::FilterSubsetof },
            ),
            Rule::FilterSize => Err(EvalError::UnsupportedOperator { operator: Rule::FilterSize }),
            Rule::FilterEmpty => Err(
                EvalError::UnsupportedOperator { operator: Rule::FilterEmpty },
            ),
            _ => Err(EvalError::Malformed),
        }
    }

    /// Whether a filter keeps `context`, the element under test.
    pub fn should_filter(&self, context: &Value, inner: &Node) -> (r: Result<bool, EvalError>)
        ensures
            r == should_filter(self.env(), context@, inner@),
        decreases inner, inner.children.len() + 5,
    {
        match inner.rule {
            Rule::FilterValue => match self.filter_value(context, inner) {
                Ok(v) => Ok(!v.is_null()),
                Err(e) => Err(e),
            },
            Rule::FilterExpression => self.filter_expression(context, inner),
            _ => Err(EvalError::Malformed),
        }
    }

    /// The array of the elements of `context` that the filter keeps.
    pub fn filter(&self, context: &Value, filter: &Node) -> (r: Result<Value, EvalError>)
        ensures
            json_result(r) == eval_filter(self.env(), context@, filter@),
        decreases filter, 0int,
    {
        proof {
            lemma_view_children(filter);
        }
        if filter.children.len() == 0 {
            return Err(EvalError::Malformed);
        }
        let inner = &filter.children[0];
        match context {
            Value::Array(items) => {
                let ghost elements = items_view(items@);
                let mut kept: Vec<Value> = Vec::new();
                let mut i: usize = 0;
                while i < items.len()
                    invariant
                        i <= items.len(),
                        elements == items_view(items@),
                        filter.children.len() > 0,
                        filter@.children.len() > 0,
                        *inner == filter.children[0],
                        inner@ == filter@.children[0],
                        context@ == Json::Array(elements),
                        match filter_elements(self.env(), elements, i as int, inner@) {
                            Ok(rest) => filter_elements(self.env(), elements, 0, inner@) == Ok::<
                                Seq<Json>,
                                EvalError,
                            >(items_view(kept@) + rest),
                            Err(e) => filter_elements(self.env(), elements, 0, inner@) == Err::<
                                Seq<Json>,
                                EvalError,
                            >(e),
                        },
                    decreases items.len() - i,
                {
                    let ghost before = items_view(kept@);
                    let ghost rest = filter_elements(self.env(), elements, i + 1, inner@);
                    assert(elements[i as int] == items@[i as int]@);
                    match self.should_filter(&items[i], inner) {
                        Ok(keep) => {
                            if keep {
                                kept.push(items[i].clone());
                                proof {
                                    assert(items_view(kept@) =~= before.push(elements[i as int]));
                                    if rest is Ok {
                                        assert(before + (seq![elements[i as int]] + rest->Ok_0)
                                            =~= items_view(kept@) + rest->Ok_0);
                                    }
                                }
                            }
                        },
                        Err(e) => {
                            return Err(e);
                        },
                    }
                    i = i + 1;
                }
                assert(items_view(kept@) + Seq::<Json>::empty() =~= items_view(kept@));
                Ok(Value::Array(kept))
            },
            _ => Err(EvalError::NotAnArray),
        }
    }

    /// One key applied to `context`.
    pub fn key(&self, context: &Value, key: &Node) -> (r: Result<Value, EvalError>)
        ensures
            json_result(r) == eval_key(self.env(), context@, key@),
        decreases key, 0int,
    {
        proof {
            lemma_view_children(key);
        }
        if key.children.len() == 0 {
            return Err(EvalError::Malformed);
        }
        let child = &key.children[0];
        match child.rule {
            Rule::RootPath => match self.root(child) {
                Ok(Value::String(name)) => Ok(context.index(&name)),
                Ok(_) => Err(EvalError::KeyNotString),
                Err(e) => Err(e),
            },
            Rule::Word => Ok(context.index(&child.text)),
            Rule::Filter => self.filter(context, child),
            _ => Err(EvalError::Malformed),
        }
    }

    /// The value that `path` selects from the root document.
    pub fn root(&self, path: &Node) -> (r: Result<Value, EvalError>)
        ensures
            json_result(r) == eval_path(self.env(), self.document(), path@),
        decreases path, path.children.len() + 2,
    {
        self.eval_path(self.root.clone(), path)
    }

    /// The value that the keys of `path` select from `context`.
    pub fn eval_path(&self, context: Value, path: &Node) -> (r: Result<Value, EvalError>)
        ensures
            json_result(r) == eval_path(self.env(), context@, path@),
        decreases path, path.children.len() + 1,
    {
        let ghost start = context@;
        let mut current = context;
        proof {
            lemma_view_children(path);
        }
        let mut i: usize = 0;
        while i < path.children.len()
            invariant
                i <= path.children.len(),
                start == context@,
                eval_keys(self.env(), start, path@, 0) == eval_keys(
                    self.env(),
                    current@,
                    path@,
                    i as int,
                ),
            decreases path.children.len() - i,
        {
            let node = &path.children[i];
            proof {
                lemma_view_children(path);
            }
            if node.rule != Rule::Key {
                return Err(EvalError::Malformed);
            }
            match self.key(&current, node) {
                Ok(next) => {
                    current = next;
                },
                Err(e) => {
                    return Err(e);
                },
            }
            i = i + 1;
        }
        Ok(current)
    }

    /// Parses `path`. For every numeric literal of the path, in the order of
    /// the input, `float` is asked once for the bits of the text read as a
    /// binary64, and the literal gets the value that `literal_number` gives
    /// for the answer. Where one text occurs twice, the first of its values
    /// counts.
    pub fn new<F: Fn(&str) -> Option<u64>>(path: &str, float: F) -> (made: Result<
        Runner,
        ParseError,
    >)
        requires
            forall|text: &str| float.requires((text,)),
        ensures
            match sentence(Rule::JsonPath, path@) {
                Ok(tree) => made matches Ok(runner) && {
                    &&& runner.tree() == tree
                    &&& runner.document() == Json::Null
                    &&& resolves(float, tree, runner.numbers())
                },
                Err(e) => made matches Err(f) && f == e,
            },
    {
        let ast = match parse(Rule::JsonPath, path) {
            Ok(node) => node,
            Err(e) => {
                return Err(e);
            },
        };
        let texts = number_literals(&ast);
        let mut numbers: Vec<NumberLiteral> = Vec::new();
        let mut i: usize = 0;
        while i < texts.len()
            invariant
                i <= texts.len(),
                numbers@.len() == i,
                texts_view(texts@) == number_texts(ast@),
                forall|text: &str| float.requires((text,)),
                forall|j: int|
                    0 <= j < i ==> (#[trigger] numbers_view(numbers@)[j]).text == number_texts(
                        ast@,
                    )[j],
                forall|j: int|
                    0 <= j < i ==> reads(
                        float,
                        number_texts(ast@)[j],
                        (#[trigger] numbers_view(numbers@)[j]).value,
                    ),
            decreases texts.len() - i,
        {
            let text = texts[i].as_str();
            let bits = float(text);
            let value = number_of(text, bits);
            let ghost seen = numbers_view(numbers@);
            numbers.push(NumberLiteral { text: texts[i].clone(), value });
            proof {
                assert(texts_view(texts@)[i as int] == texts@[i as int]@);
                assert(forall|j: int|
                    0 <= j < i ==> #[trigger] numbers_view(numbers@)[j] == seen[j]);
                assert(text@ == number_texts(ast@)[i as int] && float.ensures((text,), bits)
                    && numbers_view(numbers@)[i as int].value == literal_number(text@, bits));
                assert(numbers_view(numbers@)[i as int].text == number_texts(ast@)[i as int]);
            }
            i = i + 1;
        }
        proof {
            lemma_query_shape(path@);
        }
        Ok(Runner { root: Value::Null, ast, numbers })
    }

    /// Evaluates the query over `root`, from the root. The query itself is
    /// left as it was, so every run of one document gives one result. The
    /// tree of a query is never found malformed.
    pub fn run(&mut self, root: Value) -> (r: Result<Value, EvalError>)
        ensures
            final(self).tree() == old(self).tree(),
            final(self).numbers() == old(self).numbers(),
            final(self).document() == root@,
            json_result(r) == eval_path(
                Env { root: root@, numbers: old(self).numbers() },
                root@,
                old(self).tree(),
            ),
            not_malformed(r),
    {
        proof {
            use_type_invariant(&*self);
            lemma_path_total(
                Env { root: root@, numbers: numbers_view(self.numbers@) },
                root@,
                self.ast@,
            );
        }
        self.root = root;
        self.root(&self.ast)
    }
}

/// Runs the query `path` over the document `json`: the query is parsed, its
/// numeric literals are read with the help of `float`, and it is evaluated
/// from the root of the document.
pub fn json_path<F: Fn(&str) -> Option<u64>>(json: Value, path: &str, float: F) -> (r: Result<
    Value,
    QueryError,
>)
    requires
        forall|text: &str| float.requires((text,)),
    ensures
        match sentence(Rule::JsonPath, path@) {
            Ok(tree) => exists|numbers: Seq<NumberView>|
                resolves(float, tree, numbers) && outcome(r) == #[trigger] evaluate(
                    path@,
                    numbers,
                    json@,
                ),
            Err(e) => r == Err::<Value, QueryError>(QueryError::Path(e)),
        },
        !(r matches Err(QueryError::Eval(EvalError::Malformed))),
{
    let mut runner = match Runner::new(path, float) {
        Ok(runner) => runner,
        Err(e) => {
            return Err(QueryError::Path(e));
        },
    };
    let ghost numbers = runner.numbers();
    match runner.run(json) {
        Ok(v) => {
            assert(outcome(Ok(v)) == evaluate(path@, numbers, json@));
            Ok(v)
        },
        Err(e) => {
            assert(outcome(Err(QueryError::Eval(e))) == evaluate(path@, numbers, json@));
            Err(QueryError::Eval(e))
        },
    }
}

} // verus!
