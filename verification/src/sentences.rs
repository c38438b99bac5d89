//! Queries built from their parts, and the trees that the grammar gives
//! them.

use crate::grammar::{
    branch, char_at, filter, filter_expression, filter_value, in_class, integer, is_digit,
    is_word_char, key, keys, keys_end, leaf, number, operand, operator, quoted, root_path,
    run_end, sentence, text_at, token, token_text, word, CharClass, Rule, Tree,
};
use crate::number::is_digits;
use vstd::prelude::*;

verus! {

/// Whether `text` is a word of the grammar: one character or more, each a
/// letter or a digit.
pub open spec fn is_word(text: Seq<char>) -> bool {
    text.len() > 0 && forall|i: int| 0 <= i < text.len() ==> is_word_char(#[trigger] text[i])
}

/// One key of a path of object keys: the key, and whether it is written in
/// brackets and quotes rather than after a dot.
pub struct Segment {
    pub word: Seq<char>,
    pub bracketed: bool,
}

/// A segment as it is written: `.word` or `["word"]`.
pub open spec fn segment_text(segment: Segment) -> Seq<char> {
    if segment.bracketed {
        seq!['[', '"'] + segment.word + seq!['"', ']']
    } else {
        seq!['.'] + segment.word
    }
}

/// The segments as they are written, one after the other.
pub open spec fn segments_text(segments: Seq<Segment>) -> Seq<char>
    decreases segments.len(),
{
    if segments.len() == 0 {
        Seq::empty()
    } else {
        segment_text(segments[0]) + segments_text(segments.drop_first())
    }
}

/// The query that selects by the segments from the root: `$`, then the
/// segments.
pub open spec fn path_text(segments: Seq<Segment>) -> Seq<char> {
    seq!['$'] + segments_text(segments)
}

/// The keys of the segments.
pub open spec fn segment_words(segments: Seq<Segment>) -> Seq<Seq<char>> {
    Seq::new(segments.len(), |i: int| segments[i].word)
}

/// The segments that write every key of `words` after a dot, or every one in
/// brackets.
pub open spec fn uniform_segments(words: Seq<Seq<char>>, bracketed: bool) -> Seq<Segment> {
    Seq::new(words.len(), |i: int| Segment { word: words[i], bracketed })
}

/// The node of the word `text` at `start`.
pub open spec fn word_node(text: Seq<char>, start: int) -> Tree {
    Tree { rule: Rule::Word, start, end: start + text.len(), text, children: Seq::empty() }
}

/// Whether `tree` is a key that holds the word `text`.
pub open spec fn is_word_key(tree: Tree, text: Seq<char>) -> bool {
    &&& tree.rule == Rule::Key
    &&& tree.children.len() == 1
    &&& tree.children[0].rule == Rule::Word
    &&& tree.children[0].text == text
}

/// Whether `trees` are keys that hold the words of `words`, one each.
pub open spec fn are_word_keys(trees: Seq<Tree>, words: Seq<Seq<char>>) -> bool {
    &&& trees.len() == words.len()
    &&& forall|i: int| 0 <= i < trees.len() ==> is_word_key(#[trigger] trees[i], words[i])
}

/// A run of characters of a class ends where the first character outside
/// the class stands, or the input ends.
pub proof fn lemma_run(s: Seq<char>, pos: int, end: int, class: CharClass)
    requires
        0 <= pos <= end <= s.len(),
        forall|i: int| pos <= i < end ==> in_class(class, #[trigger] s[i]),
        end == s.len() || !in_class(class, s[end]),
    ensures
        run_end(s, pos, class) == end,
    decreases end - pos,
{
    if pos < end {
        lemma_run(s, pos + 1, end, class);
    }
}

/// A word that stands at `pos` and is followed by no letter or digit is
/// matched whole.
pub proof fn lemma_word_at(s: Seq<char>, pos: int, text: Seq<char>)
    requires
        is_word(text),
        text_at(s, pos, text),
        pos + text.len() == s.len() || !is_word_char(s[pos + text.len()]),
    ensures
        word(s, pos) == Some(word_node(text, pos)),
{
    let end = pos + text.len();
    assert forall|i: int| pos <= i < end implies in_class(CharClass::Word, #[trigger] s[i]) by {
        assert(s[i] == s.subrange(pos, end)[i - pos]);
    }
    lemma_run(s, pos, end, CharClass::Word);
}

/// A dot and a word make a key.
pub proof fn lemma_dot_key(s: Seq<char>, pos: int, text: Seq<char>)
    requires
        char_at(s, pos, '.'),
        is_word(text),
        text_at(s, pos + 1, text),
        pos + 1 + text.len() == s.len() || !is_word_char(s[pos + 1 + text.len()]),
    ensures
        key(s, pos) == Some(
            branch(Rule::Key, s, pos, pos + 1 + text.len(), seq![word_node(text, pos + 1)]),
        ),
{
    lemma_word_at(s, pos + 1, text);
}

/// A word in quotes and brackets makes a key.
pub proof fn lemma_bracket_key(s: Seq<char>, pos: int, text: Seq<char>)
    requires
        char_at(s, pos, '['),
        char_at(s, pos + 1, '"'),
        is_word(text),
        text_at(s, pos + 2, text),
        char_at(s, pos + 2 + text.len(), '"'),
        char_at(s, pos + 3 + text.len(), ']'),
    ensures
        key(s, pos) == Some(
            branch(Rule::Key, s, pos, pos + 4 + text.len(), seq![word_node(text, pos + 2)]),
        ),
{
    lemma_word_at(s, pos + 2, text);
    assert(quoted(s, pos + 1, '"') == Some(word_node(text, pos + 2)));
}

/// Where no dot and no bracket stands, no key starts.
pub proof fn lemma_no_key(s: Seq<char>, pos: int)
    requires
        !char_at(s, pos, '.'),
        !char_at(s, pos, '['),
    ensures
        key(s, pos) is None,
        keys(s, pos) == Seq::<Tree>::empty(),
{
}

/// The text of some segments starts with a dot or a bracket.
pub proof fn lemma_segments_head(segments: Seq<Segment>)
    ensures
        segments.len() == 0 ==> segments_text(segments).len() == 0,
        segments.len() > 0 ==> segments_text(segments).len() > 0 && (segments_text(segments)[0]
            == '.' || segments_text(segments)[0] == '['),
{
    if segments.len() > 0 {
        let head = segment_text(segments[0]);
        assert(head.len() > 0 && (head[0] == '.' || head[0] == '['));
        assert(segments_text(segments)[0] == head[0]);
    }
}

/// The keys that the grammar finds where the text of some segments stands:
/// one key for each segment, holding its word, and then the keys that it
/// finds behind the segments.
pub proof fn lemma_segments_keys(s: Seq<char>, pos: int, segments: Seq<Segment>)
    requires
        0 <= pos,
        text_at(s, pos, segments_text(segments)),
        forall|i: int| 0 <= i < segments.len() ==> is_word((#[trigger] segments[i]).word),
        pos + segments_text(segments).len() == s.len() || !is_word_char(
            s[pos + segments_text(segments).len()],
        ),
    ensures
        keys(s, pos).len() == segments.len() + keys(s, pos + segments_text(segments).len()).len(),
        are_word_keys(keys(s, pos).take(segments.len() as int), segment_words(segments)),
        keys(s, pos).skip(segments.len() as int) == keys(
            s,
            pos + segments_text(segments).len(),
        ),
        keys_end(keys(s, pos), pos) == keys_end(
            keys(s, pos + segments_text(segments).len()),
            pos + segments_text(segments).len(),
        ),
    decreases segments.len(),
{
    let whole = segments_text(segments);
    let end = pos + whole.len();
    lemma_segments_head(segments);
    if segments.len() == 0 {
        assert(keys(s, pos).take(0) =~= Seq::<Tree>::empty());
        assert(keys(s, pos).skip(0) =~= keys(s, pos));
    } else {
        let segment = segments[0];
        let rest = segments.drop_first();
        let text = segment_text(segment);
        let tail = segments_text(rest);
        let next = pos + text.len();
        lemma_segments_head(rest);
        assert(whole == text + tail);
        assert(whole.len() == text.len() + tail.len());
        assert forall|j: int| 0 <= j < whole.len() implies s[pos + j] == #[trigger] whole[j] by {
            assert(s[pos + j] == s.subrange(pos, end)[j]);
        }
        assert forall|j: int| 0 <= j < text.len() implies s[pos + j] == #[trigger] text[j] by {
            assert(whole[j] == text[j]);
        }
        assert(s.subrange(next, end) =~= tail) by {
            assert forall|j: int| 0 <= j < tail.len() implies s.subrange(next, end)[j]
                == tail[j] by {
                assert(s[next + j] == whole[text.len() + j]);
            }
        }
        assert(next == s.len() || !is_word_char(s[next])) by {
            if rest.len() > 0 {
                assert(s[next] == whole[text.len() as int]);
                assert(whole[text.len() as int] == tail[0]);
            }
        }
        let word_start = if segment.bracketed {
            pos + 2
        } else {
            pos + 1
        };
        assert(text_at(s, word_start, segment.word)) by {
            assert forall|j: int| 0 <= j < segment.word.len() implies s.subrange(
                word_start,
                word_start + segment.word.len(),
            )[j] == segment.word[j] by {
                assert(s[word_start + j] == text[word_start - pos + j]);
            }
            assert(s.subrange(word_start, word_start + segment.word.len()) =~= segment.word);
        }
        if segment.bracketed {
            assert(s[pos] == text[0]);
            assert(s[pos + 1] == text[1]);
            assert(s[pos + 2 + segment.word.len()] == text[2 + segment.word.len() as int]);
            assert(s[pos + 3 + segment.word.len()] == text[3 + segment.word.len() as int]);
            lemma_bracket_key(s, pos, segment.word);
        } else {
            assert(s[pos] == text[0]);
            lemma_dot_key(s, pos, segment.word);
        }
        let k = key(s, pos).unwrap();
        assert(k.end == next);
        assert(is_word_key(k, segment.word));
        lemma_segments_keys(s, next, rest);
        let more = keys(s, next);
        let after = keys(s, end);
        let all = keys(s, pos);
        let n = segments.len() as int;
        assert(all == seq![k] + more);
        assert forall|i: int| 0 <= i < n implies is_word_key(
            #[trigger] all.take(n)[i],
            segment_words(segments)[i],
        ) by {
            if i > 0 {
                assert(all[i] == more.take(n - 1)[i - 1]);
                assert(segment_words(segments)[i] == segment_words(rest)[i - 1]);
            }
        }
        assert(all.skip(n) =~= more.skip(n - 1));
        if more.len() == 0 {
            assert(all.last() == k);
        } else {
            assert(all.last() == more.last());
        }
    }
}

/// The tree of a path of object keys: a root path with one key for each
/// segment, holding its word.
pub proof fn lemma_path_tree(segments: Seq<Segment>)
    requires
        forall|i: int| 0 <= i < segments.len() ==> is_word((#[trigger] segments[i]).word),
    ensures
        sentence(Rule::JsonPath, path_text(segments)) matches Ok(tree) && tree.rule
            == Rule::RootPath && are_word_keys(tree.children, segment_words(segments)),
{
    let s = path_text(segments);
    let n = segments.len() as int;
    assert(s.subrange(1, s.len() as int) =~= segments_text(segments));
    lemma_segments_keys(s, 1, segments);
    lemma_no_key(s, s.len() as int);
    assert(char_at(s, 0, '$'));
    assert(keys(s, 1).take(n) =~= keys(s, 1));
}

/// A literal that a comparison can have on its right: a word, a whole
/// number, or a number with a fraction.
pub enum Literal {
    Word { word: Seq<char> },
    Whole { digits: Seq<char> },
    Decimal { whole: Seq<char>, fraction: Seq<char> },
}

/// Whether the parts of a literal are what the grammar asks of them.
pub open spec fn is_literal(literal: Literal) -> bool {
    match literal {
        Literal::Word { word } => is_word(word),
        Literal::Whole { digits } => is_digits(digits),
        Literal::Decimal { whole, fraction } => is_digits(whole) && is_digits(fraction),
    }
}

/// The text that the node of a literal holds: the word without its quotes,
/// or the number.
pub open spec fn literal_text(literal: Literal) -> Seq<char> {
    match literal {
        Literal::Word { word } => word,
        Literal::Whole { digits } => digits,
        Literal::Decimal { whole, fraction } => whole + seq!['.'] + fraction,
    }
}

/// A literal as it is written in a comparison: a word stands in single
/// quotes.
pub open spec fn literal_written(literal: Literal) -> Seq<char> {
    match literal {
        Literal::Word { word } => seq!['\''] + word + seq!['\''],
        _ => literal_text(literal),
    }
}

/// The production that matches a literal.
pub open spec fn literal_rule(literal: Literal) -> Rule {
    match literal {
        Literal::Word { .. } => Rule::Word,
        _ => Rule::Number,
    }
}

/// The operator of a comparison for equality, or for inequality where
/// `negated`.
pub open spec fn equality_rule(negated: bool) -> Rule {
    if negated {
        Rule::FilterNotEqual
    } else {
        Rule::FilterEqual
    }
}

/// How a filter on the value of one key starts: `[?(@.`.
pub open spec fn filter_start() -> Seq<char> {
    seq!['[', '?', '(', '@', '.']
}

/// How a filter ends: `)]`.
pub open spec fn filter_stop() -> Seq<char> {
    seq![')', ']']
}

/// The operator for equality, or for inequality where `negated`, with one
/// space on each side.
pub open spec fn equality_text(negated: bool) -> Seq<char> {
    if negated {
        seq![' ', '!', '=', ' ']
    } else {
        seq![' ', '=', '=', ' ']
    }
}

/// The query that selects an array by the segments and keeps its elements
/// in which `key` has a value: `$.a.b[?(@.key)]`.
pub open spec fn exists_query(segments: Seq<Segment>, key: Seq<char>) -> Seq<char> {
    path_text(segments) + filter_start() + key + filter_stop()
}

/// The query that selects an array by the segments and keeps its elements in
/// which the value of `key` equals a literal, or differs from it where
/// `negated`: `$.a.b[?(@.key == literal)]` and `$.a.b[?(@.key != literal)]`.
pub open spec fn compare_query(
    segments: Seq<Segment>,
    key: Seq<char>,
    negated: bool,
    literal: Literal,
) -> Seq<char> {
    path_text(segments) + filter_start() + key + equality_text(negated) + literal_written(literal)
        + filter_stop()
}

/// Whether `tree` is a filter value that selects by the one key `key`.
pub open spec fn is_key_value(tree: Tree, key: Seq<char>) -> bool {
    tree.rule == Rule::FilterValue && are_word_keys(tree.children, seq![key])
}

/// Whether `tree` is the comparison of the value of `key` with a node of
/// `right_rule` that holds `right_text`.
pub open spec fn is_comparison(
    tree: Tree,
    key: Seq<char>,
    operator: Rule,
    right_rule: Rule,
    right_text: Seq<char>,
) -> bool {
    &&& tree.rule == Rule::FilterExpression
    &&& tree.children.len() == 3
    &&& is_key_value(tree.children[0], key)
    &&& tree.children[1].rule == operator
    &&& tree.children[2].rule == right_rule
    &&& tree.children[2].text == right_text
}

/// Where the filter of a filter query starts: behind the path.
pub open spec fn filter_at(segments: Seq<Segment>) -> int {
    path_text(segments).len() as int
}

/// Whether `tree` is a key that holds a filter around `inner`.
pub open spec fn is_filter_key(tree: Tree, inner: Tree) -> bool {
    &&& tree.rule == Rule::Key
    &&& tree.children.len() == 1
    &&& tree.children[0].rule == Rule::Filter
    &&& tree.children[0].children.len() == 1
    &&& tree.children[0].children[0] == inner
}

/// Whether `tree` is a root path of keys that hold the words of `words`,
/// and then one key that holds a filter around `inner`.
pub open spec fn is_filter_path(tree: Tree, words: Seq<Seq<char>>, inner: Tree) -> bool {
    &&& tree.rule == Rule::RootPath
    &&& tree.children.len() == words.len() + 1
    &&& are_word_keys(tree.children.take(words.len() as int), words)
    &&& is_filter_key(tree.children[words.len() as int], inner)
}

/// The test of the filter that ends a filter path.
pub open spec fn filter_inner(tree: Tree) -> Tree {
    tree.children.last().children[0].children[0]
}

/// `@`, a dot and a word, where no further key follows, make a filter value
/// of one key.
pub proof fn lemma_key_value_at(s: Seq<char>, pos: int, text: Seq<char>)
    requires
        char_at(s, pos, '@'),
        char_at(s, pos + 1, '.'),
        is_word(text),
        text_at(s, pos + 2, text),
        pos + 2 + text.len() == s.len() || !is_word_char(s[pos + 2 + text.len()]),
        !char_at(s, pos + 2 + text.len(), '.'),
        !char_at(s, pos + 2 + text.len(), '['),
    ensures
        filter_value(s, pos) matches Some(v) && v.end == pos + 2 + text.len() && is_key_value(
            v,
            text,
        ),
{
    let end = pos + 2 + text.len();
    lemma_dot_key(s, pos + 1, text);
    lemma_no_key(s, end);
    let k = key(s, pos + 1).unwrap();
    assert(keys(s, pos + 1) =~= seq![k]);
}

/// A fixed text is not matched where its first character does not stand.
pub proof fn lemma_token_fails(rule: Rule, s: Seq<char>, pos: int)
    requires
        token_text(rule).len() > 0,
        pos < 0 || pos >= s.len() || s[pos] != token_text(rule)[0],
    ensures
        token(rule, s, pos) is None,
{
    let text = token_text(rule);
    if text_at(s, pos, text) {
        assert(s.subrange(pos, pos + text.len())[0] == text[0]);
    }
}

/// No operator starts with a character that starts none of their texts.
pub proof fn lemma_no_operator(s: Seq<char>, pos: int)
    requires
        pos >= s.len() || (0 <= pos && s[pos] != '=' && s[pos] != '!' && s[pos] != '<' && s[pos]
            != '>' && s[pos] != 'i' && s[pos] != 'n' && s[pos] != 's' && s[pos] != 'e'),
    ensures
        operator(s, pos) is None,
{
    reveal_strlit("==");
    reveal_strlit("!=");
    reveal_strlit("<=");
    reveal_strlit("<");
    reveal_strlit(">=");
    reveal_strlit(">");
    reveal_strlit("=~");
    reveal_strlit("in");
    reveal_strlit("nin");
    reveal_strlit("subsetof");
    reveal_strlit("size");
    reveal_strlit("empty");
    lemma_token_fails(Rule::FilterEqual, s, pos);
    lemma_token_fails(Rule::FilterNotEqual, s, pos);
    lemma_token_fails(Rule::FilterLessEqual, s, pos);
    lemma_token_fails(Rule::FilterLess, s, pos);
    lemma_token_fails(Rule::FilterGreaterEqual, s, pos);
    lemma_token_fails(Rule::FilterGreater, s, pos);
    lemma_token_fails(Rule::FilterRegex, s, pos);
    lemma_token_fails(Rule::FilterIn, s, pos);
    lemma_token_fails(Rule::FilterNin, s, pos);
    lemma_token_fails(Rule::FilterSubsetof, s, pos);
    lemma_token_fails(Rule::FilterSize, s, pos);
    lemma_token_fails(Rule::FilterEmpty, s, pos);
}

/// `==` and `!=` are matched as the operators for equality and inequality.
pub proof fn lemma_equality_operator(s: Seq<char>, pos: int, negated: bool)
    requires
        char_at(s, pos, if negated { '!' } else { '=' }),
        char_at(s, pos + 1, '='),
    ensures
        operator(s, pos) == Some(leaf(equality_rule(negated), s, pos, pos + 2)),
{
    reveal_strlit("==");
    reveal_strlit("!=");
    assert(s.subrange(pos, pos + 2) =~= seq![s[pos], s[pos + 1]]);
    if negated {
        assert("!="@ =~= seq!['!', '=']);
        assert(!text_at(s, pos, "=="@)) by {
            if text_at(s, pos, "=="@) {
                assert(s.subrange(pos, pos + 2)[0] == "=="@[0]);
            }
        }
    } else {
        assert("=="@ =~= seq!['=', '=']);
    }
}

/// Digits that stand at `pos` and are followed by no digit are matched
/// whole.
pub proof fn lemma_integer_at(s: Seq<char>, pos: int, digits: Seq<char>)
    requires
        is_digits(digits),
        text_at(s, pos, digits),
        pos + digits.len() == s.len() || !is_digit(s[pos + digits.len()]),
    ensures
        integer(s, pos) matches Some(node) && node.end == pos + digits.len(),
{
    let end = pos + digits.len();
    assert forall|i: int| pos <= i < end implies in_class(CharClass::Digit, #[trigger] s[i]) by {
        assert(s[i] == s.subrange(pos, end)[i - pos]);
    }
    lemma_run(s, pos, end, CharClass::Digit);
}

/// A number that stands at `pos` and is followed by no digit and no dot is
/// matched whole, and its node holds its text.
pub proof fn lemma_number_at(s: Seq<char>, pos: int, literal: Literal)
    requires
        is_literal(literal),
        literal !is Word,
        text_at(s, pos, literal_text(literal)),
        pos + literal_text(literal).len() == s.len() || (!is_digit(
            s[pos + literal_text(literal).len()],
        ) && s[pos + literal_text(literal).len()] != '.'),
    ensures
        number(s, pos) matches Some(node) && node.rule == Rule::Number && node.text
            == literal_text(literal) && node.end == pos + literal_text(literal).len(),
{
    reveal_strlit(".");
    let text = literal_text(literal);
    let end = pos + text.len();
    assert forall|j: int| 0 <= j < text.len() implies s[pos + j] == #[trigger] text[j] by {
        assert(s[pos + j] == s.subrange(pos, end)[j]);
    }
    match literal {
        Literal::Whole { digits } => {
            lemma_integer_at(s, pos, digits);
            assert(!text_at(s, end, "."@)) by {
                if text_at(s, end, "."@) {
                    assert(s.subrange(end, end + 1)[0] == "."@[0]);
                }
            }
        },
        Literal::Decimal { whole, fraction } => {
            let dot = pos + whole.len();
            assert(s.subrange(pos, dot) =~= whole) by {
                assert forall|j: int| 0 <= j < whole.len() implies s.subrange(pos, dot)[j]
                    == whole[j] by {
                    assert(text[j] == whole[j]);
                }
            }
            assert(s[dot] == text[whole.len() as int]);
            assert(s[dot] == '.');
            lemma_integer_at(s, pos, whole);
            assert(s.subrange(dot, dot + 1) =~= "."@);
            assert(s.subrange(dot + 1, end) =~= fraction) by {
                assert forall|j: int| 0 <= j < fraction.len() implies s.subrange(dot + 1, end)[j]
                    == fraction[j] by {
                    assert(text[whole.len() + 1 + j] == fraction[j]);
                }
            }
            lemma_integer_at(s, dot + 1, fraction);
        },
        Literal::Word { .. } => {},
    }
}

/// The right operand of a comparison, where a literal is written at `pos`
/// and a closing parenthesis follows it.
pub proof fn lemma_literal_operand(s: Seq<char>, pos: int, literal: Literal)
    requires
        is_literal(literal),
        text_at(s, pos, literal_written(literal)),
        char_at(s, pos + literal_written(literal).len(), ')'),
    ensures
        operand(s, pos) matches Some(right) && right.end == pos + literal_written(literal).len()
            && right.tree.rule == literal_rule(literal) && right.tree.text == literal_text(
            literal,
        ),
{
    let written = literal_written(literal);
    let end = pos + written.len();
    assert forall|j: int| 0 <= j < written.len() implies s[pos + j] == #[trigger] written[j] by {
        assert(s[pos + j] == s.subrange(pos, end)[j]);
    }
    assert(s[pos] == written[0]);
    match literal {
        Literal::Word { word: w } => {
            assert(s.subrange(pos + 1, pos + 1 + w.len()) =~= w) by {
                assert forall|j: int| 0 <= j < w.len() implies s.subrange(
                    pos + 1,
                    pos + 1 + w.len(),
                )[j] == w[j] by {
                    assert(written[1 + j] == w[j]);
                }
            }
            assert(s[pos + 1 + w.len()] == written[1 + w.len() as int]);
            lemma_word_at(s, pos + 1, w);
            assert(filter_value(s, pos) is None);
            assert(quoted(s, pos, '\'') == Some(word_node(w, pos + 1)));
        },
        _ => {
            assert(is_digit(written[0]));
            lemma_number_at(s, pos, literal);
            assert(filter_value(s, pos) is None);
            assert(quoted(s, pos, '\'') is None);
        },
    }
}

/// A path of object keys and then a filter in brackets, up to the end of the
/// input, is a query: a root path of the keys of the segments and one key
/// that holds the filter.
pub proof fn lemma_filter_query(s: Seq<char>, segments: Seq<Segment>, inner: Tree)
    requires
        forall|i: int| 0 <= i < segments.len() ==> is_word((#[trigger] segments[i]).word),
        text_at(s, 0, path_text(segments)),
        char_at(s, filter_at(segments), '['),
        char_at(s, filter_at(segments) + 1, '?'),
        char_at(s, filter_at(segments) + 2, '('),
        filter_expression(s, filter_at(segments) + 3) == Some(inner) || (filter_expression(
            s,
            filter_at(segments) + 3,
        ) is None && filter_value(s, filter_at(segments) + 3) == Some(inner)),
        char_at(s, inner.end, ')'),
        char_at(s, inner.end + 1, ']'),
        inner.end + 2 == s.len(),
    ensures
        sentence(Rule::JsonPath, s) matches Ok(tree) && is_filter_path(
            tree,
            segment_words(segments),
            inner,
        ),
{
    let at = path_text(segments).len() as int;
    let n = segments.len() as int;
    let end = inner.end;
    assert(s[0] == s.subrange(0, at)[0]);
    assert(s.subrange(1, at) =~= segments_text(segments)) by {
        assert forall|j: int| 0 <= j < at - 1 implies s.subrange(1, at)[j] == segments_text(
            segments,
        )[j] by {
            assert(s[1 + j] == s.subrange(0, at)[1 + j]);
        }
    }
    lemma_segments_keys(s, 1, segments);
    let f = branch(Rule::Filter, s, at + 1, end + 1, seq![inner]);
    assert(filter(s, at + 1) == Some(f));
    assert(quoted(s, at + 1, '"') is None);
    assert(root_path(s, at + 1) is None);
    let k = branch(Rule::Key, s, at, end + 2, seq![f]);
    assert(key(s, at) == Some(k));
    lemma_no_key(s, end + 2);
    assert(keys(s, at) =~= seq![k]);
    let all = keys(s, 1);
    assert(all[n] == all.skip(n)[0]);
    assert(all.last() == k);
    assert(root_path(s, 0) == Some(branch(Rule::RootPath, s, 0, end + 2, all)));
}

/// Where the parts of `$.a.b[?(@.key)]` stand in it.
proof fn lemma_exists_layout(segments: Seq<Segment>, key: Seq<char>)
    ensures
        ({
            let s = exists_query(segments, key);
            let at = path_text(segments).len() as int;
            let n = key.len() as int;
            &&& s.len() == at + n + 7
            &&& s.subrange(0, at) == path_text(segments)
            &&& s[at] == '[' && s[at + 1] == '?' && s[at + 2] == '(' && s[at + 3] == '@' && s[at
                + 4] == '.'
            &&& s.subrange(at + 5, at + 5 + n) == key
            &&& s[at + 5 + n] == ')'
            &&& s[at + 6 + n] == ']'
        }),
{
    let s = exists_query(segments, key);
    let at = path_text(segments).len() as int;
    let n = key.len() as int;
    assert(s.subrange(0, at) =~= path_text(segments));
    assert(s.subrange(at + 5, at + 5 + n) =~= key);
}

/// `@`, a dot and a word before a closing parenthesis make a filter value
/// of one key, and no comparison.
pub proof fn lemma_exists_at(s: Seq<char>, pos: int, key: Seq<char>)
    requires
        is_word(key),
        char_at(s, pos, '@'),
        char_at(s, pos + 1, '.'),
        text_at(s, pos + 2, key),
        char_at(s, pos + 2 + key.len(), ')'),
    ensures
        filter_expression(s, pos) is None,
        filter_value(s, pos) matches Some(v) && v.end == pos + 2 + key.len() && is_key_value(
            v,
            key,
        ),
{
    let end = pos + 2 + key.len();
    lemma_key_value_at(s, pos, key);
    lemma_no_operator(s, end);
    assert(run_end(s, end, CharClass::Space) == end);
}

/// An input in which the parts of `$.a.b[?(@.key)]` stand is that query.
proof fn lemma_exists_sentence(s: Seq<char>, segments: Seq<Segment>, key: Seq<char>)
    requires
        forall|i: int| 0 <= i < segments.len() ==> is_word((#[trigger] segments[i]).word),
        is_word(key),
        text_at(s, 0, path_text(segments)),
        char_at(s, filter_at(segments), '['),
        char_at(s, filter_at(segments) + 1, '?'),
        char_at(s, filter_at(segments) + 2, '('),
        char_at(s, filter_at(segments) + 3, '@'),
        char_at(s, filter_at(segments) + 4, '.'),
        text_at(s, filter_at(segments) + 5, key),
        char_at(s, filter_at(segments) + 5 + key.len(), ')'),
        char_at(s, filter_at(segments) + 6 + key.len(), ']'),
        s.len() == filter_at(segments) + 7 + key.len(),
    ensures
        sentence(Rule::JsonPath, s) matches Ok(tree) && is_filter_path(
            tree,
            segment_words(segments),
            filter_inner(tree),
        ) && is_key_value(filter_inner(tree), key),
{
    let at = filter_at(segments);
    lemma_exists_at(s, at + 3, key);
    lemma_filter_query(s, segments, filter_value(s, at + 3).unwrap());
}

/// The tree of `$.a.b[?(@.key)]`.
pub proof fn lemma_exists_query(segments: Seq<Segment>, key: Seq<char>)
    requires
        forall|i: int| 0 <= i < segments.len() ==> is_word((#[trigger] segments[i]).word),
        is_word(key),
    ensures
        sentence(Rule::JsonPath, exists_query(segments, key)) matches Ok(tree) && is_filter_path(
            tree,
            segment_words(segments),
            filter_inner(tree),
        ) && is_key_value(filter_inner(tree), key),
{
    lemma_exists_layout(segments, key);
    lemma_exists_sentence(exists_query(segments, key), segments, key);
}

/// The comparison of the value of a key with a literal, written at `pos`
/// with one space on each side of the operator and a closing parenthesis
/// after it.
pub proof fn lemma_comparison_at(
    s: Seq<char>,
    pos: int,
    key: Seq<char>,
    negated: bool,
    literal: Literal,
)
    requires
        is_word(key),
        is_literal(literal),
        char_at(s, pos, '@'),
        char_at(s, pos + 1, '.'),
        text_at(s, pos + 2, key),
        char_at(s, pos + 2 + key.len(), ' '),
        char_at(s, pos + 3 + key.len(), if negated { '!' } else { '=' }),
        char_at(s, pos + 4 + key.len(), '='),
        char_at(s, pos + 5 + key.len(), ' '),
        text_at(s, pos + 6 + key.len(), literal_written(literal)),
        char_at(s, pos + 6 + key.len() + literal_written(literal).len(), ')'),
    ensures
        filter_expression(s, pos) matches Some(inner) && inner.end == pos + 6 + key.len()
            + literal_written(literal).len() && is_comparison(
            inner,
            key,
            equality_rule(negated),
            literal_rule(literal),
            literal_text(literal),
        ),
{
    let written = literal_written(literal);
    let n = key.len() as int;
    let m = written.len() as int;
    let at = pos + 6 + n;
    assert(m > 0 && written[0] != ' ') by {
        match literal {
            Literal::Word { word } => {},
            Literal::Whole { digits } => {
                assert(is_digit(digits[0]));
            },
            Literal::Decimal { whole, fraction } => {
                assert(is_digit(whole[0]));
                assert(written[0] == whole[0]);
            },
        }
    }
    assert(s[at] == written[0]) by {
        assert(s[at] == s.subrange(at, at + m)[0]);
    }
    lemma_key_value_at(s, pos, key);
    let left = filter_value(s, pos).unwrap();
    assert(run_end(s, pos + 2 + n, CharClass::Space) == pos + 3 + n) by {
        lemma_run(s, pos + 2 + n, pos + 3 + n, CharClass::Space);
    }
    lemma_equality_operator(s, pos + 3 + n, negated);
    let op = operator(s, pos + 3 + n).unwrap();
    assert(run_end(s, pos + 5 + n, CharClass::Space) == at) by {
        lemma_run(s, pos + 5 + n, at, CharClass::Space);
    }
    lemma_literal_operand(s, at, literal);
    let right = operand(s, at).unwrap();
    let inner = branch(Rule::FilterExpression, s, pos, right.end, seq![left, op, right.tree]);
    assert(filter_expression(s, pos) == Some(inner));
}

/// Where the parts of `$.a.b[?(@.key == literal)]` stand in it.
proof fn lemma_compare_layout(
    segments: Seq<Segment>,
    key: Seq<char>,
    negated: bool,
    literal: Literal,
)
    ensures
        ({
            let s = compare_query(segments, key, negated, literal);
            let at = path_text(segments).len() as int;
            let n = key.len() as int;
            let m = literal_written(literal).len() as int;
            &&& s.len() == at + n + m + 11
            &&& s.subrange(0, at) == path_text(segments)
            &&& s[at] == '[' && s[at + 1] == '?' && s[at + 2] == '(' && s[at + 3] == '@' && s[at
                + 4] == '.'
            &&& s.subrange(at + 5, at + 5 + n) == key
            &&& s[at + 5 + n] == ' '
            &&& s[at + 6 + n] == (if negated {
                '!'
            } else {
                '='
            })
            &&& s[at + 7 + n] == '='
            &&& s[at + 8 + n] == ' '
            &&& s.subrange(at + 9 + n, at + 9 + n + m) == literal_written(literal)
            &&& s[at + 9 + n + m] == ')'
            &&& s[at + 10 + n + m] == ']'
        }),
{
    let s = compare_query(segments, key, negated, literal);
    let at = path_text(segments).len() as int;
    let n = key.len() as int;
    let m = literal_written(literal).len() as int;
    assert(s.subrange(0, at) =~= path_text(segments));
    assert(s.subrange(at + 5, at + 5 + n) =~= key);
    assert(s.subrange(at + 9 + n, at + 9 + n + m) =~= literal_written(literal));
}

/// An input in which the parts of `$.a.b[?(@.key == literal)]` stand is
/// that query.
proof fn lemma_compare_sentence(
    s: Seq<char>,
    segments: Seq<Segment>,
    key: Seq<char>,
    negated: bool,
    literal: Literal,
)
    requires
        forall|i: int| 0 <= i < segments.len() ==> is_word((#[trigger] segments[i]).word),
        is_word(key),
        is_literal(literal),
        text_at(s, 0, path_text(segments)),
        char_at(s, filter_at(segments), '['),
        char_at(s, filter_at(segments) + 1, '?'),
        char_at(s, filter_at(segments) + 2, '('),
        char_at(s, filter_at(segments) + 3, '@'),
        char_at(s, filter_at(segments) + 4, '.'),
        text_at(s, filter_at(segments) + 5, key),
        char_at(s, filter_at(segments) + 5 + key.len(), ' '),
        char_at(s, filter_at(segments) + 6 + key.len(), if negated { '!' } else { '=' }),
        char_at(s, filter_at(segments) + 7 + key.len(), '='),
        char_at(s, filter_at(segments) + 8 + key.len(), ' '),
        text_at(s, filter_at(segments) + 9 + key.len(), literal_written(literal)),
        char_at(s, filter_at(segments) + 9 + key.len() + literal_written(literal).len(), ')'),
        char_at(s, filter_at(segments) + 10 + key.len() + literal_written(literal).len(), ']'),
        s.len() == filter_at(segments) + 11 + key.len() + literal_written(literal).len(),
    ensures
        sentence(Rule::JsonPath, s) matches Ok(tree) && is_filter_path(
            tree,
            segment_words(segments),
            filter_inner(tree),
        ) && is_comparison(
            filter_inner(tree),
            key,
            equality_rule(negated),
            literal_rule(literal),
            literal_text(literal),
        ),
{
    let at = filter_at(segments);
    lemma_comparison_at(s, at + 3, key, negated, literal);
    lemma_filter_query(s, segments, filter_expression(s, at + 3).unwrap());
}

/// The tree of `$.a.b[?(@.key == literal)]` and of
/// `$.a.b[?(@.key != literal)]`.
pub proof fn lemma_compare_query(
    segments: Seq<Segment>,
    key: Seq<char>,
    negated: bool,
    literal: Literal,
)
    requires
        forall|i: int| 0 <= i < segments.len() ==> is_word((#[trigger] segments[i]).word),
        is_word(key),
        is_literal(literal),
    ensures
        sentence(Rule::JsonPath, compare_query(segments, key, negated, literal)) matches Ok(tree)
            && is_filter_path(tree, segment_words(segments), filter_inner(tree))
            && is_comparison(
            filter_inner(tree),
            key,
            equality_rule(negated),
            literal_rule(literal),
            literal_text(literal),
        ),
{
    lemma_compare_layout(segments, key, negated, literal);
    lemma_compare_sentence(
        compare_query(segments, key, negated, literal),
        segments,
        key,
        negated,
        literal,
    );
}

/// The query that selects a value by the segments and then indexes it by
/// the string that the segments of `name` select from the root:
/// `$.a.b[$.c.d]`.
pub open spec fn dynamic_query(segments: Seq<Segment>, name: Seq<Segment>) -> Seq<char> {
    path_text(segments) + seq!['['] + path_text(name) + seq![']']
}

/// Whether `tree` is a root path of keys that hold the words of `words`,
/// and then one key that holds a root path of keys that hold the words of
/// `name`.
pub open spec fn is_dynamic_path(
    tree: Tree,
    words: Seq<Seq<char>>,
    name: Seq<Seq<char>>,
) -> bool {
    &&& tree.rule == Rule::RootPath
    &&& tree.children.len() == words.len() + 1
    &&& are_word_keys(tree.children.take(words.len() as int), words)
    &&& tree.children.last().rule == Rule::Key
    &&& tree.children.last().children.len() == 1
    &&& tree.children.last().children[0].rule == Rule::RootPath
    &&& are_word_keys(tree.children.last().children[0].children, name)
}

/// Where the parts of `$.a.b[$.c.d]` stand in it.
proof fn lemma_dynamic_layout(segments: Seq<Segment>, name: Seq<Segment>)
    ensures
        ({
            let s = dynamic_query(segments, name);
            let at = filter_at(segments);
            let m = segments_text(name).len() as int;
            &&& s.len() == at + m + 3
            &&& s[0] == '$'
            &&& s.subrange(1, at) == segments_text(segments)
            &&& s[at] == '['
            &&& s[at + 1] == '$'
            &&& s.subrange(at + 2, at + 2 + m) == segments_text(name)
            &&& s[at + 2 + m] == ']'
        }),
{
    let s = dynamic_query(segments, name);
    let at = filter_at(segments);
    let m = segments_text(name).len() as int;
    assert(s.subrange(1, at) =~= segments_text(segments));
    assert(s.subrange(at + 2, at + 2 + m) =~= segments_text(name));
}

/// An input in which the parts of `$.a.b[$.c.d]` stand is that query.
proof fn lemma_dynamic_sentence(s: Seq<char>, segments: Seq<Segment>, name: Seq<Segment>)
    requires
        forall|i: int| 0 <= i < segments.len() ==> is_word((#[trigger] segments[i]).word),
        forall|i: int| 0 <= i < name.len() ==> is_word((#[trigger] name[i]).word),
        char_at(s, 0, '$'),
        text_at(s, 1, segments_text(segments)),
        char_at(s, filter_at(segments), '['),
        char_at(s, filter_at(segments) + 1, '$'),
        text_at(s, filter_at(segments) + 2, segments_text(name)),
        char_at(s, filter_at(segments) + 2 + segments_text(name).len(), ']'),
        s.len() == filter_at(segments) + 3 + segments_text(name).len(),
    ensures
        sentence(Rule::JsonPath, s) matches Ok(tree) && is_dynamic_path(
            tree,
            segment_words(segments),
            segment_words(name),
        ),
{
    let at = filter_at(segments);
    let n = segments.len() as int;
    let m = segments_text(name).len() as int;
    let end = at + 2 + m;
    lemma_segments_keys(s, 1, segments);
    lemma_segments_keys(s, at + 2, name);
    lemma_no_key(s, end);
    lemma_no_key(s, end + 1);
    let inside = keys(s, at + 2);
    assert(inside.take(name.len() as int) =~= inside);
    let path = branch(Rule::RootPath, s, at + 1, end, inside);
    assert(root_path(s, at + 1) == Some(path));
    assert(quoted(s, at + 1, '"') is None);
    let k = branch(Rule::Key, s, at, end + 1, seq![path]);
    assert(key(s, at) == Some(k));
    assert(keys(s, at) =~= seq![k]);
    let all = keys(s, 1);
    assert(all[n] == all.skip(n)[0]);
    assert(all.last() == k);
    assert(root_path(s, 0) == Some(branch(Rule::RootPath, s, 0, end + 1, all)));
}

/// The tree of `$.a.b[$.c.d]`.
pub proof fn lemma_dynamic_query(segments: Seq<Segment>, name: Seq<Segment>)
    requires
        forall|i: int| 0 <= i < segments.len() ==> is_word((#[trigger] segments[i]).word),
        forall|i: int| 0 <= i < name.len() ==> is_word((#[trigger] name[i]).word),
    ensures
        sentence(Rule::JsonPath, dynamic_query(segments, name)) matches Ok(tree)
            && is_dynamic_path(tree, segment_words(segments), segment_words(name)),
{
    lemma_dynamic_layout(segments, name);
    lemma_dynamic_sentence(dynamic_query(segments, name), segments, name);
}

} // verus!
