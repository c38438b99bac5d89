//! The grammar of the query language, as a parsing expression grammar over
//! the characters of the input. Every production is a function from the input
//! and a position to the syntax tree matched there, if any.
//!
//! ```text
//! digit             = '0'..'9'
//! int               = digit+
//! dot               = "."
//! number            = int (dot int)?
//! true_lit          = "true"
//! false_lit         = "false"
//! bool_lit          = true_lit / false_lit
//! word              = ('0'..'9' / 'a'..'z' / 'A'..'Z')+
//! root_path         = "$" key*
//! key               = "." word / "[" "\"" word "\"" "]" / "[" root_path "]" / "[" filter "]"
//! filter            = "?(" (filter_expression / filter_value) ")"
//! filter_value      = "@" key*
//! filter_expression = filter_value " "* operator " "* (filter_value / "'" word "'" / number)
//! operator          = "==" / "!=" / "<=" / "<" / ">=" / ">" / "=~"
//!                   / "in" / "nin" / "subsetof" / "size" / "empty"
//! json_path         = root_path, to the end of the input
//! ```

use vstd::prelude::*;

verus! {

/// The productions of the grammar. Every node of a syntax tree carries the
/// production that matched it.
#[derive(Clone, Copy, Debug, PartialEq, Eq, Structural)]
pub enum Rule {
    Digit,
    Int,
    Dot,
    Number,
    TrueLit,
    FalseLit,
    BoolLit,
    Word,
    JsonPath,
    RootPath,
    Key,
    Filter,
    FilterValue,
    FilterExpression,
    FilterEqual,
    FilterNotEqual,
    FilterLess,
    FilterLessEqual,
    FilterGreater,
    FilterGreaterEqual,
    FilterRegex,
    FilterIn,
    FilterNin,
    FilterSubsetof,
    FilterSize,
    FilterEmpty,
}

/// A node of a syntax tree: the production matched, the span of input it
/// covers as character offsets, the text of that span, and the nodes of the
/// productions matched inside it.
#[derive(Debug, PartialEq, Eq)]
pub struct Node {
    pub rule: Rule,
    pub start: usize,
    pub end: usize,
    pub text: String,
    pub children: Vec<Node>,
}

/// The mathematical view of a [`Node`].
pub struct Tree {
    pub rule: Rule,
    pub start: int,
    pub end: int,
    pub text: Seq<char>,
    pub children: Seq<Tree>,
}

/// The view of a list of nodes.
pub open spec fn nodes_view(nodes: Seq<Node>) -> Seq<Tree>
    decreases nodes,
{
    Seq::new(
        nodes.len(),
        |i: int|
            if 0 <= i < nodes.len() {
                nodes[i].view()
            } else {
                arbitrary()
            },
    )
}

impl View for Node {
    type V = Tree;

    open spec fn view(&self) -> Tree
        decreases self,
    {
        Tree {
            rule: self.rule,
            start: self.start as int,
            end: self.end as int,
            text: self.text@,
            children: nodes_view(self.children@),
        }
    }
}

/// The children of the view of a node are the views of its children.
pub proof fn lemma_view_children(node: &Node)
    ensures
        node@.children.len() == node.children.len(),
        forall|i: int|
            0 <= i < node.children.len() ==> #[trigger] node@.children[i] == node.children@[i]@,
{
    assert(node@.children == nodes_view(node.children@));
    assert forall|i: int| 0 <= i < node.children.len() implies #[trigger] node@.children[i]
        == node.children@[i]@ by {
        assert(nodes_view(node.children@)[i] == node.children@[i]@);
    }
}

/// The classes of characters that the grammar repeats.
#[derive(Clone, Copy, Debug, PartialEq, Eq, Structural)]
pub enum CharClass {
    Digit,
    Word,
    Space,
}

pub open spec fn is_digit(c: char) -> bool {
    '0' <= c <= '9'
}

pub open spec fn is_word_char(c: char) -> bool {
    is_digit(c) || 'a' <= c <= 'z' || 'A' <= c <= 'Z'
}

pub open spec fn in_class(class: CharClass, c: char) -> bool {
    match class {
        CharClass::Digit => is_digit(c),
        CharClass::Word => is_word_char(c),
        CharClass::Space => c == ' ',
    }
}

/// Whether the character at `pos` is `c`.
pub open spec fn char_at(s: Seq<char>, pos: int, c: char) -> bool {
    0 <= pos < s.len() && s[pos] == c
}

/// Whether `text` stands in `s` at `pos`.
pub open spec fn text_at(s: Seq<char>, pos: int, text: Seq<char>) -> bool {
    0 <= pos && pos + text.len() <= s.len() && s.subrange(pos, pos + text.len()) == text
}

/// The end of the longest run of characters of `class` that starts at `pos`.
pub open spec fn run_end(s: Seq<char>, pos: int, class: CharClass) -> int
    decreases s.len() - pos,
{
    if 0 <= pos < s.len() && in_class(class, s[pos]) {
        run_end(s, pos + 1, class)
    } else {
        pos
    }
}

/// A node without children over `start..end`.
pub open spec fn leaf(rule: Rule, s: Seq<char>, start: int, end: int) -> Tree {
    Tree { rule, start, end, text: s.subrange(start, end), children: Seq::empty() }
}

/// A node with children over `start..end`.
pub open spec fn branch(
    rule: Rule,
    s: Seq<char>,
    start: int,
    end: int,
    children: Seq<Tree>,
) -> Tree {
    Tree { rule, start, end, text: s.subrange(start, end), children }
}

/// The first of two alternatives that matches.
pub open spec fn or_else(first: Option<Tree>, second: Option<Tree>) -> Option<Tree> {
    match first {
        Some(t) => Some(t),
        None => second,
    }
}

/// The fixed text of a production that matches one, and the empty text for
/// every other production.
pub open spec fn token_text(rule: Rule) -> Seq<char> {
    match rule {
        Rule::Dot => "."@,
        Rule::TrueLit => "true"@,
        Rule::FalseLit => "false"@,
        Rule::FilterEqual => "=="@,
        Rule::FilterNotEqual => "!="@,
        Rule::FilterLess => "<"@,
        Rule::FilterLessEqual => "<="@,
        Rule::FilterGreater => ">"@,
        Rule::FilterGreaterEqual => ">="@,
        Rule::FilterRegex => "=~"@,
        Rule::FilterIn => "in"@,
        Rule::FilterNin => "nin"@,
        Rule::FilterSubsetof => "subsetof"@,
        Rule::FilterSize => "size"@,
        Rule::FilterEmpty => "empty"@,
        _ => ""@,
    }
}

/// A production that matches a fixed text.
pub open spec fn token(rule: Rule, s: Seq<char>, pos: int) -> Option<Tree> {
    if text_at(s, pos, token_text(rule)) {
        Some(leaf(rule, s, pos, pos + token_text(rule).len()))
    } else {
        None
    }
}

/// `digit`
pub open spec fn digit(s: Seq<char>, pos: int) -> Option<Tree> {
    if 0 <= pos < s.len() && is_digit(s[pos]) {
        Some(leaf(Rule::Digit, s, pos, pos + 1))
    } else {
        None
    }
}

/// `int`: one node per digit.
pub open spec fn integer(s: Seq<char>, pos: int) -> Option<Tree> {
    let end = run_end(s, pos, CharClass::Digit);
    if 0 <= pos < end {
        Some(
            branch(
                Rule::Int,
                s,
                pos,
                end,
                Seq::new((end - pos) as nat, |i: int| leaf(Rule::Digit, s, pos + i, pos + i + 1)),
            ),
        )
    } else {
        None
    }
}

/// `number`: the fraction is taken only where a dot and an `int` follow.
pub open spec fn number(s: Seq<char>, pos: int) -> Option<Tree> {
    match integer(s, pos) {
        Some(whole) => match token(Rule::Dot, s, whole.end) {
            Some(dot) => match integer(s, dot.end) {
                Some(fraction) => Some(
                    branch(Rule::Number, s, pos, fraction.end, seq![whole, dot, fraction]),
                ),
                None => Some(branch(Rule::Number, s, pos, whole.end, seq![whole])),
            },
            None => Some(branch(Rule::Number, s, pos, whole.end, seq![whole])),
        },
        None => None,
    }
}

/// `bool_lit`
pub open spec fn bool_lit(s: Seq<char>, pos: int) -> Option<Tree> {
    match or_else(token(Rule::TrueLit, s, pos), token(Rule::FalseLit, s, pos)) {
        Some(lit) => Some(branch(Rule::BoolLit, s, pos, lit.end, seq![lit])),
        None => None,
    }
}

/// `word`
pub open spec fn word(s: Seq<char>, pos: int) -> Option<Tree> {
    let end = run_end(s, pos, CharClass::Word);
    if 0 <= pos < end {
        Some(leaf(Rule::Word, s, pos, end))
    } else {
        None
    }
}

/// A word between two `quote` characters. The node is that of the word; the
/// closing quote stands at its end.
pub open spec fn quoted(s: Seq<char>, pos: int, quote: char) -> Option<Tree> {
    if char_at(s, pos, quote) {
        match word(s, pos + 1) {
            Some(w) => if char_at(s, w.end, quote) {
                Some(w)
            } else {
                None
            },
            None => None,
        }
    } else {
        None
    }
}

/// `operator`: the alternatives in the order in which they are tried.
pub open spec fn operator(s: Seq<char>, pos: int) -> Option<Tree> {
    or_else(
        token(Rule::FilterEqual, s, pos),
        or_else(
            token(Rule::FilterNotEqual, s, pos),
            or_else(
                token(Rule::FilterLessEqual, s, pos),
                or_else(
                    token(Rule::FilterLess, s, pos),
                    or_else(
                        token(Rule::FilterGreaterEqual, s, pos),
                        or_else(
                            token(Rule::FilterGreater, s, pos),
                            or_else(
                                token(Rule::FilterRegex, s, pos),
                                or_else(
                                    token(Rule::FilterIn, s, pos),
                                    or_else(
                                        token(Rule::FilterNin, s, pos),
                                        or_else(
                                            token(Rule::FilterSubsetof, s, pos),
                                            or_else(
                                                token(Rule::FilterSize, s, pos),
                                                token(Rule::FilterEmpty, s, pos),
                                            ),
                                        ),
                                    ),
                                ),
                            ),
                        ),
                    ),
                ),
            ),
        ),
    )
}

/// Where a list of keys that starts at `start` ends.
pub open spec fn keys_end(keys: Seq<Tree>, start: int) -> int {
    if keys.len() == 0 {
        start
    } else {
        keys.last().end
    }
}

/// The right operand of a comparison: its node, and where the operand ends,
/// which for a quoted word is after the closing quote.
pub struct Operand {
    pub tree: Tree,
    pub end: int,
}

/// `key*`: keys are taken as long as one matches. The test on the end of a
/// key holds of every match (`shape::lemma_key_shape`); it is there so that
/// the recursion is seen to end.
pub open spec fn keys(s: Seq<char>, pos: int) -> Seq<Tree>
    decreases s.len() - pos, 1int,
{
    match key(s, pos) {
        Some(k) => if pos < k.end <= s.len() {
            seq![k] + keys(s, k.end)
        } else {
            seq![k]
        },
        None => Seq::empty(),
    }
}

/// `key`
pub open spec fn key(s: Seq<char>, pos: int) -> Option<Tree>
    decreases s.len() - pos, 0int,
{
    if char_at(s, pos, '.') {
        match word(s, pos + 1) {
            Some(w) => Some(branch(Rule::Key, s, pos, w.end, seq![w])),
            None => None,
        }
    } else if char_at(s, pos, '[') {
        match quoted(s, pos + 1, '"') {
            Some(w) if char_at(s, w.end + 1, ']') => Some(
                branch(Rule::Key, s, pos, w.end + 2, seq![w]),
            ),
            _ => match root_path(s, pos + 1) {
                Some(path) if char_at(s, path.end, ']') => Some(
                    branch(Rule::Key, s, pos, path.end + 1, seq![path]),
                ),
                _ => match filter(s, pos + 1) {
                    Some(f) if char_at(s, f.end, ']') => Some(
                        branch(Rule::Key, s, pos, f.end + 1, seq![f]),
                    ),
                    _ => None,
                },
            },
        }
    } else {
        None
    }
}

/// `root_path`
pub open spec fn root_path(s: Seq<char>, pos: int) -> Option<Tree>
    decreases s.len() - pos, 0int,
{
    if char_at(s, pos, '$') {
        let children = keys(s, pos + 1);
        Some(branch(Rule::RootPath, s, pos, keys_end(children, pos + 1), children))
    } else {
        None
    }
}

/// `filter_value`
pub open spec fn filter_value(s: Seq<char>, pos: int) -> Option<Tree>
    decreases s.len() - pos, 0int,
{
    if char_at(s, pos, '@') {
        let children = keys(s, pos + 1);
        Some(branch(Rule::FilterValue, s, pos, keys_end(children, pos + 1), children))
    } else {
        None
    }
}

/// `filter`: a comparison is tried before a bare filter value.
pub open spec fn filter(s: Seq<char>, pos: int) -> Option<Tree>
    decreases s.len() - pos, 0int,
{
    if char_at(s, pos, '?') && char_at(s, pos + 1, '(') {
        let inner = match filter_expression(s, pos + 2) {
            Some(e) => Some(e),
            None => filter_value(s, pos + 2),
        };
        match inner {
            Some(i) if char_at(s, i.end, ')') => Some(
                branch(Rule::Filter, s, pos, i.end + 1, seq![i]),
            ),
            _ => None,
        }
    } else {
        None
    }
}

/// The right operand of a comparison.
pub open spec fn operand(s: Seq<char>, pos: int) -> Option<Operand>
    decreases s.len() - pos, 1int,
{
    match filter_value(s, pos) {
        Some(v) => Some(Operand { tree: v, end: v.end }),
        None => match quoted(s, pos, '\'') {
            Some(w) => Some(Operand { tree: w, end: w.end + 1 }),
            None => match number(s, pos) {
                Some(n) => Some(Operand { tree: n, end: n.end }),
                None => None,
            },
        },
    }
}

/// `filter_expression`. The test on the start of the right operand holds of
/// every match (`shape::lemma_filter_expression_shape`); it is there so that
/// the recursion is seen to end.
pub open spec fn filter_expression(s: Seq<char>, pos: int) -> Option<Tree>
    decreases s.len() - pos, 1int,
{
    match filter_value(s, pos) {
        Some(left) => match operator(s, run_end(s, left.end, CharClass::Space)) {
            Some(op) => {
                let at = run_end(s, op.end, CharClass::Space);
                if pos < at <= s.len() {
                    match operand(s, at) {
                        Some(right) => Some(
                            branch(
                                Rule::FilterExpression,
                                s,
                                pos,
                                right.end,
                                seq![left, op, right.tree],
                            ),
                        ),
                        None => None,
                    }
                } else {
                    None
                }
            },
            None => None,
        },
        None => None,
    }
}

/// The production named by `rule`, matched at `pos`.
pub open spec fn production(rule: Rule, s: Seq<char>, pos: int) -> Option<Tree> {
    match rule {
        Rule::Digit => digit(s, pos),
        Rule::Int => integer(s, pos),
        Rule::Number => number(s, pos),
        Rule::BoolLit => bool_lit(s, pos),
        Rule::Word => word(s, pos),
        Rule::JsonPath => root_path(s, pos),
        Rule::RootPath => root_path(s, pos),
        Rule::Key => key(s, pos),
        Rule::Filter => filter(s, pos),
        Rule::FilterValue => filter_value(s, pos),
        Rule::FilterExpression => filter_expression(s, pos),
        _ => token(rule, s, pos),
    }
}

/// Why an input is not a sentence of a production.
#[derive(Clone, Copy, Debug, PartialEq, Eq, Structural)]
pub enum ParseError {
    /// The production does not match at the start of the input.
    Expected { rule: Rule },
    /// The production matches the input up to `position` and no further, and
    /// input is left.
    TrailingInput { position: usize },
}

/// The syntax tree of an input that is, as a whole, a sentence of the
/// production named by `rule`; the error for any other input.
pub open spec fn sentence(rule: Rule, s: Seq<char>) -> Result<Tree, ParseError> {
    match production(rule, s, 0) {
        Some(tree) => if tree.end == s.len() {
            Ok(tree)
        } else {
            Err(ParseError::TrailingInput { position: tree.end as usize })
        },
        None => Err(ParseError::Expected { rule }),
    }
}

} // verus!
