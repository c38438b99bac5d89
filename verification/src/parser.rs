//! The parser: one function per production of the grammar, each proved to
//! return exactly the tree that the grammar gives.

use crate::grammar::{
    bool_lit, branch, char_at, digit, filter, filter_expression, filter_value, in_class, integer,
    key, keys, keys_end, leaf, nodes_view, number, operand, operator, production, quoted,
    root_path, run_end, sentence, text_at, token, token_text, word, CharClass, Node, Operand,
    ParseError, Rule, Tree,
};
use vstd::prelude::*;
use vstd::string::*;

verus! {

/// Whether a parse result is the match that the grammar gives: both fail, or
/// the node is a view of the tree and ends inside the input, after `pos`.
pub open spec fn agrees(found: Option<Node>, expected: Option<Tree>, pos: int, len: int) -> bool {
    match found {
        Some(node) => expected == Some(node@) && pos < node.end <= len,
        None => expected is None,
    }
}

proof fn lemma_nodes_view_push(nodes: Seq<Node>, node: Node)
    ensures
        nodes_view(nodes.push(node)) == nodes_view(nodes).push(node@),
{
    assert(nodes_view(nodes.push(node)) =~= nodes_view(nodes).push(node@));
}

/// The characters of `input`.
pub(crate) fn to_chars(input: &str) -> (chars: Vec<char>)
    ensures
        chars@ == input@,
{
    let n = input.unicode_len();
    let mut chars: Vec<char> = Vec::new();
    let mut i: usize = 0;
    while i < n
        invariant
            i <= n,
            n == input@.len(),
            chars@ == input@.subrange(0, i as int),
        decreases n - i,
    {
        chars.push(input.get_char(i));
        assert(chars@ =~= input@.subrange(0, i + 1));
        i = i + 1;
    }
    assert(chars@ =~= input@);
    chars
}

/// A node over `start..end` of the input. Its text is cut from the input by
/// character offsets, which takes time linear in the input.
fn make_node(rule: Rule, input: &str, start: usize, end: usize, children: Vec<Node>) -> (node:
    Node)
    requires
        start <= end <= input@.len(),
    ensures
        node@ == branch(rule, input@, start as int, end as int, nodes_view(children@)),
        node.end == end,
{
    let text = input.substring_char(start, end).to_owned();
    Node { rule, start, end, text, children }
}

/// A node without children over `start..end` of the input.
fn make_leaf(rule: Rule, input: &str, start: usize, end: usize) -> (node: Node)
    requires
        start <= end <= input@.len(),
    ensures
        node@ == leaf(rule, input@, start as int, end as int),
        node.end == end,
{
    let node = make_node(rule, input, start, end, Vec::new());
    assert(node@.children =~= Seq::empty());
    node
}

fn class_holds(class: CharClass, c: char) -> (r: bool)
    ensures
        r == in_class(class, c),
{
    match class {
        CharClass::Digit => '0' <= c && c <= '9',
        CharClass::Word => ('0' <= c && c <= '9') || ('a' <= c && c <= 'z') || ('A' <= c && c
            <= 'Z'),
        CharClass::Space => c == ' ',
    }
}

/// The end of the run of characters of `class` that starts at `pos`.
fn scan(chars: &Vec<char>, pos: usize, class: CharClass) -> (end: usize)
    requires
        pos <= chars.len(),
    ensures
        end == run_end(chars@, pos as int, class),
        pos <= end <= chars.len(),
{
    let mut end = pos;
    while end < chars.len() && class_holds(class, chars[end])
        invariant
            pos <= end <= chars.len(),
            run_end(chars@, pos as int, class) == run_end(chars@, end as int, class),
        decreases chars.len() - end,
    {
        end = end + 1;
    }
    end
}

fn has_char(chars: &Vec<char>, pos: usize, c: char) -> (r: bool)
    ensures
        r == char_at(chars@, pos as int, c),
{
    pos < chars.len() && chars[pos] == c
}

fn has_text(chars: &Vec<char>, pos: usize, text: &str) -> (r: bool)
    requires
        pos <= chars.len(),
    ensures
        r == text_at(chars@, pos as int, text@),
{
    let n = text.unicode_len();
    if n > chars.len() - pos {
        return false;
    }
    let mut i: usize = 0;
    while i < n
        invariant
            i <= n,
            n == text@.len(),
            pos + n <= chars.len(),
            forall|j: int| 0 <= j < i ==> chars@[pos + j] == text@[j],
        decreases n - i,
    {
        if chars[pos + i] != text.get_char(i) {
            assert(chars@.subrange(pos as int, pos + n)[i as int] != text@[i as int]);
            return false;
        }
        i = i + 1;
    }
    assert(chars@.subrange(pos as int, pos + n) =~= text@);
    true
}

/// The fixed text of a production that matches one.
fn token_str(rule: Rule) -> (text: &'static str)
    ensures
        text@ == token_text(rule),
{
    match rule {
        Rule::Dot => ".",
        Rule::TrueLit => "true",
        Rule::FalseLit => "false",
        Rule::FilterEqual => "==",
        Rule::FilterNotEqual => "!=",
        Rule::FilterLess => "<",
        Rule::FilterLessEqual => "<=",
        Rule::FilterGreater => ">",
        Rule::FilterGreaterEqual => ">=",
        Rule::FilterRegex => "=~",
        Rule::FilterIn => "in",
        Rule::FilterNin => "nin",
        Rule::FilterSubsetof => "subsetof",
        Rule::FilterSize => "size",
        Rule::FilterEmpty => "empty",
        _ => "",
    }
}

/// A production that matches a fixed text. Unlike the other productions it
/// may match the empty text, so its node may end at `pos`.
fn parse_token(rule: Rule, input: &str, chars: &Vec<char>, pos: usize) -> (found: Option<Node>)
    requires
        chars@ == input@,
        pos <= chars.len(),
    ensures
        match found {
            Some(node) => token(rule, chars@, pos as int) == Some(node@) && pos <= node.end
                <= chars.len(),
            None => token(rule, chars@, pos as int) is None,
        },
{
    let text = token_str(rule);
    if has_text(chars, pos, text) {
        let n = text.unicode_len();
        Some(make_leaf(rule, input, pos, pos + n))
    } else {
        None
    }
}

fn parse_digit(input: &str, chars: &Vec<char>, pos: usize) -> (found: Option<Node>)
    requires
        chars@ == input@,
        pos <= chars.len(),
    ensures
        agrees(found, digit(chars@, pos as int), pos as int, chars.len() as int),
{
    if pos < chars.len() && class_holds(CharClass::Digit, chars[pos]) {
        Some(make_leaf(Rule::Digit, input, pos, pos + 1))
    } else {
        None
    }
}

fn parse_int(input: &str, chars: &Vec<char>, pos: usize) -> (found: Option<Node>)
    requires
        chars@ == input@,
        pos <= chars.len(),
    ensures
        agrees(found, integer(chars@, pos as int), pos as int, chars.len() as int),
{
    let end = scan(chars, pos, CharClass::Digit);
    if pos < end {
        let mut digits: Vec<Node> = Vec::new();
        let mut i: usize = pos;
        while i < end
            invariant
                chars@ == input@,
                pos <= i <= end <= chars.len(),
                digits@.len() == i - pos,
                forall|j: int|
                    0 <= j < i - pos ==> (#[trigger] digits@[j])@ == leaf(
                        Rule::Digit,
                        chars@,
                        pos + j,
                        pos + j + 1,
                    ),
            decreases end - i,
        {
            digits.push(make_leaf(Rule::Digit, input, i, i + 1));
            i = i + 1;
        }
        let node = make_node(Rule::Int, input, pos, end, digits);
        assert(node@.children =~= Seq::new(
            (end - pos) as nat,
            |i: int| leaf(Rule::Digit, chars@, pos + i, pos + i + 1),
        ));
        Some(node)
    } else {
        None
    }
}

fn parse_number(input: &str, chars: &Vec<char>, pos: usize) -> (found: Option<Node>)
    requires
        chars@ == input@,
        pos <= chars.len(),
    ensures
        agrees(found, number(chars@, pos as int), pos as int, chars.len() as int),
{
    match parse_int(input, chars, pos) {
        Some(whole) => {
            let whole_end = whole.end;
            let mut children: Vec<Node> = Vec::new();
            match parse_token(Rule::Dot, input, chars, whole_end) {
                Some(dot) => match parse_int(input, chars, dot.end) {
                    Some(fraction) => {
                        let end = fraction.end;
                        let ghost parts = seq![whole@, dot@, fraction@];
                        children.push(whole);
                        children.push(dot);
                        children.push(fraction);
                        assert(nodes_view(children@) =~= parts);
                        Some(make_node(Rule::Number, input, pos, end, children))
                    },
                    None => {
                        let ghost parts = seq![whole@];
                        children.push(whole);
                        assert(nodes_view(children@) =~= parts);
                        Some(make_node(Rule::Number, input, pos, whole_end, children))
                    },
                },
                None => {
                    let ghost parts = seq![whole@];
                    children.push(whole);
                    assert(nodes_view(children@) =~= parts);
                    Some(make_node(Rule::Number, input, pos, whole_end, children))
                },
            }
        },
        None => None,
    }
}

fn parse_bool_lit(input: &str, chars: &Vec<char>, pos: usize) -> (found: Option<Node>)
    requires
        chars@ == input@,
        pos <= chars.len(),
    ensures
        match found {
            Some(node) => bool_lit(chars@, pos as int) == Some(node@),
            None => bool_lit(chars@, pos as int) is None,
        },
{
    let lit = match parse_token(Rule::TrueLit, input, chars, pos) {
        Some(t) => Some(t),
        None => parse_token(Rule::FalseLit, input, chars, pos),
    };
    match lit {
        Some(lit) => {
            let end = lit.end;
            let ghost parts = seq![lit@];
            let mut children: Vec<Node> = Vec::new();
            children.push(lit);
            assert(nodes_view(children@) =~= parts);
            Some(make_node(Rule::BoolLit, input, pos, end, children))
        },
        None => None,
    }
}

fn parse_word(input: &str, chars: &Vec<char>, pos: usize) -> (found: Option<Node>)
    requires
        chars@ == input@,
        pos <= chars.len(),
    ensures
        agrees(found, word(chars@, pos as int), pos as int, chars.len() as int),
{
    let end = scan(chars, pos, CharClass::Word);
    if pos < end {
        Some(make_leaf(Rule::Word, input, pos, end))
    } else {
        None
    }
}

fn parse_quoted(input: &str, chars: &Vec<char>, pos: usize, quote: char) -> (found: Option<Node>)
    requires
        chars@ == input@,
        pos <= chars.len(),
    ensures
        agrees(found, quoted(chars@, pos as int, quote), pos as int, chars.len() as int),
        found matches Some(node) ==> node.end < chars.len(),
{
    if has_char(chars, pos, quote) {
        match parse_word(input, chars, pos + 1) {
            Some(w) => if has_char(chars, w.end, quote) {
                Some(w)
            } else {
                None
            },
            None => None,
        }
    } else {
        None
    }
}

fn parse_operator(input: &str, chars: &Vec<char>, pos: usize) -> (found: Option<Node>)
    requires
        chars@ == input@,
        pos <= chars.len(),
    ensures
        match found {
            Some(node) => operator(chars@, pos as int) == Some(node@) && pos <= node.end
                <= chars.len(),
            None => operator(chars@, pos as int) is None,
        },
{
    let order = [
        Rule::FilterEqual,
        Rule::FilterNotEqual,
        Rule::FilterLessEqual,
        Rule::FilterLess,
        Rule::FilterGreaterEqual,
        Rule::FilterGreater,
        Rule::FilterRegex,
        Rule::FilterIn,
        Rule::FilterNin,
        Rule::FilterSubsetof,
        Rule::FilterSize,
        Rule::FilterEmpty,
    ];
    let mut i: usize = 0;
    while i < 12
        invariant
            chars@ == input@,
            pos <= chars.len(),
            i <= 12,
            order@ == seq![
                Rule::FilterEqual,
                Rule::FilterNotEqual,
                Rule::FilterLessEqual,
                Rule::FilterLess,
                Rule::FilterGreaterEqual,
                Rule::FilterGreater,
                Rule::FilterRegex,
                Rule::FilterIn,
                Rule::FilterNin,
                Rule::FilterSubsetof,
                Rule::FilterSize,
                Rule::FilterEmpty,
            ],
            forall|j: int| 0 <= j < i ==> token(#[trigger] order@[j], chars@, pos as int) is None,
        decreases 12 - i,
    {
        match parse_token(order[i], input, chars, pos) {
            Some(node) => {
                return Some(node);
            },
            None => {},
        }
        i = i + 1;
    }
    None
}

fn parse_keys(input: &str, chars: &Vec<char>, pos: usize) -> (found: Vec<Node>)
    requires
        chars@ == input@,
        pos <= chars.len(),
    ensures
        nodes_view(found@) == keys(chars@, pos as int),
        pos <= keys_end(nodes_view(found@), pos as int) <= chars.len(),
    decreases chars.len() - pos, 1int,
{
    let mut found: Vec<Node> = Vec::new();
    let mut at: usize = pos;
    loop
        invariant
            chars@ == input@,
            pos <= at <= chars.len(),
            keys(chars@, pos as int) == nodes_view(found@) + keys(chars@, at as int),
            at == keys_end(nodes_view(found@), pos as int),
        decreases chars.len() - at,
    {
        match parse_key(input, chars, at) {
            Some(k) => {
                let end = k.end;
                proof {
                    lemma_nodes_view_push(found@, k);
                    assert(nodes_view(found@) + (seq![k@] + keys(chars@, end as int))
                        =~= nodes_view(found@).push(k@) + keys(chars@, end as int));
                }
                found.push(k);
                at = end;
            },
            None => {
                assert(nodes_view(found@) + Seq::<Tree>::empty() =~= nodes_view(found@));
                return found;
            },
        }
    }
}

fn parse_key(input: &str, chars: &Vec<char>, pos: usize) -> (found: Option<Node>)
    requires
        chars@ == input@,
        pos <= chars.len(),
    ensures
        agrees(found, key(chars@, pos as int), pos as int, chars.len() as int),
    decreases chars.len() - pos, 0int,
{
    if has_char(chars, pos, '.') {
        match parse_word(input, chars, pos + 1) {
            Some(w) => {
                let end = w.end;
                let ghost parts = seq![w@];
                let mut children: Vec<Node> = Vec::new();
                children.push(w);
                assert(nodes_view(children@) =~= parts);
                Some(make_node(Rule::Key, input, pos, end, children))
            },
            None => None,
        }
    } else if has_char(chars, pos, '[') {
        match parse_quoted(input, chars, pos + 1, '"') {
            Some(w) => {
                if has_char(chars, w.end + 1, ']') {
                    let end = w.end + 2;
                    let ghost parts = seq![w@];
                    let mut children: Vec<Node> = Vec::new();
                    children.push(w);
                    assert(nodes_view(children@) =~= parts);
                    return Some(make_node(Rule::Key, input, pos, end, children));
                }
            },
            None => {},
        }
        match parse_root_path(input, chars, pos + 1) {
            Some(path) => {
                if has_char(chars, path.end, ']') {
                    let end = path.end + 1;
                    let ghost parts = seq![path@];
                    let mut children: Vec<Node> = Vec::new();
                    children.push(path);
                    assert(nodes_view(children@) =~= parts);
                    return Some(make_node(Rule::Key, input, pos, end, children));
                }
            },
            None => {},
        }
        match parse_filter(input, chars, pos + 1) {
            Some(f) => {
                if has_char(chars, f.end, ']') {
                    let end = f.end + 1;
                    let ghost parts = seq![f@];
                    let mut children: Vec<Node> = Vec::new();
                    children.push(f);
                    assert(nodes_view(children@) =~= parts);
                    return Some(make_node(Rule::Key, input, pos, end, children));
                }
            },
            None => {},
        }
        None
    } else {
        None
    }
}

fn parse_root_path(input: &str, chars: &Vec<char>, pos: usize) -> (found: Option<Node>)
    requires
        chars@ == input@,
        pos <= chars.len(),
    ensures
        agrees(found, root_path(chars@, pos as int), pos as int, chars.len() as int),
    decreases chars.len() - pos, 0int,
{
    if has_char(chars, pos, '$') {
        let children = parse_keys(input, chars, pos + 1);
        let end = if children.len() == 0 {
            pos + 1
        } else {
            children[children.len() - 1].end
        };
        Some(make_node(Rule::RootPath, input, pos, end, children))
    } else {
        None
    }
}

fn parse_filter_value(input: &str, chars: &Vec<char>, pos: usize) -> (found: Option<Node>)
    requires
        chars@ == input@,
        pos <= chars.len(),
    ensures
        agrees(found, filter_value(chars@, pos as int), pos as int, chars.len() as int),
    decreases chars.len() - pos, 0int,
{
    if has_char(chars, pos, '@') {
        let children = parse_keys(input, chars, pos + 1);
        let end = if children.len() == 0 {
            pos + 1
        } else {
            children[children.len() - 1].end
        };
        Some(make_node(Rule::FilterValue, input, pos, end, children))
    } else {
        None
    }
}

fn parse_filter(input: &str, chars: &Vec<char>, pos: usize) -> (found: Option<Node>)
    requires
        chars@ == input@,
        pos <= chars.len(),
    ensures
        agrees(found, filter(chars@, pos as int), pos as int, chars.len() as int),
    decreases chars.len() - pos, 0int,
{
    if has_char(chars, pos, '?') && has_char(chars, pos + 1, '(') {
        let inner = match parse_filter_expression(input, chars, pos + 2) {
            Some(e) => Some(e),
            None => parse_filter_value(input, chars, pos + 2),
        };
        match inner {
            Some(i) => {
                if has_char(chars, i.end, ')') {
                    let end = i.end + 1;
                    let ghost parts = seq![i@];
                    let mut children: Vec<Node> = Vec::new();
                    children.push(i);
                    assert(nodes_view(children@) =~= parts);
                    Some(make_node(Rule::Filter, input, pos, end, children))
                } else {
                    None
                }
            },
            None => None,
        }
    } else {
        None
    }
}

/// The right operand of a comparison, and where it ends.
fn parse_operand(input: &str, chars: &Vec<char>, pos: usize) -> (found: Option<(Node, usize)>)
    requires
        chars@ == input@,
        pos <= chars.len(),
    ensures
        match found {
            Some(pair) => operand(chars@, pos as int) == Some(
                Operand { tree: pair.0@, end: pair.1 as int },
            ) && pos < pair.1 <= chars.len(),
            None => operand(chars@, pos as int) is None,
        },
    decreases chars.len() - pos, 1int,
{
    match parse_filter_value(input, chars, pos) {
        Some(v) => {
            let end = v.end;
            Some((v, end))
        },
        None => match parse_quoted(input, chars, pos, '\'') {
            Some(w) => {
                let end = w.end + 1;
                Some((w, end))
            },
            None => match parse_number(input, chars, pos) {
                Some(n) => {
                    let end = n.end;
                    Some((n, end))
                },
                None => None,
            },
        },
    }
}

fn parse_filter_expression(input: &str, chars: &Vec<char>, pos: usize) -> (found: Option<Node>)
    requires
        chars@ == input@,
        pos <= chars.len(),
    ensures
        agrees(found, filter_expression(chars@, pos as int), pos as int, chars.len() as int),
    decreases chars.len() - pos, 1int,
{
    match parse_filter_value(input, chars, pos) {
        Some(left) => {
            let before = scan(chars, left.end, CharClass::Space);
            match parse_operator(input, chars, before) {
                Some(op) => {
                    let at = scan(chars, op.end, CharClass::Space);
                    match parse_operand(input, chars, at) {
                        Some(pair) => {
                            let (right, end) = pair;
                            let ghost parts = seq![left@, op@, right@];
                            let mut children: Vec<Node> = Vec::new();
                            children.push(left);
                            children.push(op);
                            children.push(right);
                            assert(nodes_view(children@) =~= parts);
                            Some(make_node(Rule::FilterExpression, input, pos, end, children))
                        },
                        None => None,
                    }
                },
                None => None,
            }
        },
        None => None,
    }
}

/// The production named by `rule`, matched at the start of the input.
fn parse_production(rule: Rule, input: &str, chars: &Vec<char>) -> (found: Option<Node>)
    requires
        chars@ == input@,
    ensures
        match found {
            Some(node) => production(rule, chars@, 0) == Some(node@) && node.end <= chars.len(),
            None => production(rule, chars@, 0) is None,
        },
{
    match rule {
        Rule::Digit => parse_digit(input, chars, 0),
        Rule::Int => parse_int(input, chars, 0),
        Rule::Number => parse_number(input, chars, 0),
        Rule::BoolLit => parse_bool_lit(input, chars, 0),
        Rule::Word => parse_word(input, chars, 0),
        Rule::JsonPath => parse_root_path(input, chars, 0),
        Rule::RootPath => parse_root_path(input, chars, 0),
        Rule::Key => parse_key(input, chars, 0),
        Rule::Filter => parse_filter(input, chars, 0),
        Rule::FilterValue => parse_filter_value(input, chars, 0),
        Rule::FilterExpression => parse_filter_expression(input, chars, 0),
        _ => parse_token(rule, input, chars, 0),
    }
}

/// Parses the whole of `input` as one sentence of the production named by
/// `rule`. `Rule::JsonPath` asks for a root path.
pub fn parse(rule: Rule, input: &str) -> (parsed: Result<Node, ParseError>)
    ensures
        match sentence(rule, input@) {
            Ok(tree) => parsed matches Ok(node) && node@ == tree,
            Err(e) => parsed matches Err(f) && f == e,
        },
{
    let chars = to_chars(input);
    match parse_production(rule, input, &chars) {
        Some(node) => {
            if node.end == chars.len() {
                Ok(node)
            } else {
                Err(ParseError::TrailingInput { position: node.end })
            }
        },
        None => Err(ParseError::Expected { rule }),
    }
}

} // verus!
