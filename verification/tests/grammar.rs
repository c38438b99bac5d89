use jsonpath::{parse, Node, ParseError, Rule};

struct Token {
    rule: Rule,
    start: usize,
    end: usize,
    children: Vec<Token>,
}

fn token(rule: Rule, start: usize, end: usize, children: Vec<Token>) -> Token {
    Token { rule, start, end, children }
}

fn leaf(rule: Rule, start: usize, end: usize) -> Token {
    Token { rule, start, end, children: vec![] }
}

fn assert_tokens(input: &str, node: &Node, expected: &Token) {
    assert_eq!(node.rule, expected.rule);
    assert_eq!((node.start, node.end), (expected.start, expected.end));
    assert_eq!(node.text, &input[expected.start..expected.end]);
    assert_eq!(node.children.len(), expected.children.len());
    for (child, want) in node.children.iter().zip(expected.children.iter()) {
        assert_tokens(input, child, want);
    }
}

fn parses_to(rule: Rule, input: &str, expected: Token) {
    let node = parse(rule, input).unwrap();
    assert_tokens(input, &node, &expected);
}

fn print_parse(rule: Rule, val: &str) {
    println!("{:#?}", parse(rule, val));
}

#[test]
fn test_filter_expression_parse() {
    print_parse(Rule::Key, "[?(@.value > @.test)]");
    parses_to(
        Rule::Key,
        "[?(@.value > @.test)]",
        token(
            Rule::Key,
            0,
            21,
            vec![token(
                Rule::Filter,
                1,
                20,
                vec![token(
                    Rule::FilterExpression,
                    3,
                    19,
                    vec![
                        token(
                            Rule::FilterValue,
                            3,
                            10,
                            vec![token(Rule::Key, 4, 10, vec![leaf(Rule::Word, 5, 10)])],
                        ),
                        leaf(Rule::FilterGreater, 11, 12),
                        token(
                            Rule::FilterValue,
                            13,
                            19,
                            vec![token(Rule::Key, 14, 19, vec![leaf(Rule::Word, 15, 19)])],
                        ),
                    ],
                )],
            )],
        ),
    );
}

#[test]
fn test_filter_parsing() {
    print_parse(Rule::Key, "[?(@.value)]");
    parses_to(
        Rule::Key,
        "[?(@.value)]",
        token(
            Rule::Key,
            0,
            12,
            vec![token(
                Rule::Filter,
                1,
                11,
                vec![token(
                    Rule::FilterValue,
                    3,
                    10,
                    vec![token(Rule::Key, 4, 10, vec![leaf(Rule::Word, 5, 10)])],
                )],
            )],
        ),
    );
}

#[test]
fn true_lit() {
    parses_to(
        Rule::BoolLit,
        "true",
        token(Rule::BoolLit, 0, 4, vec![leaf(Rule::TrueLit, 0, 4)]),
    );
}

#[test]
fn false_lit() {
    parses_to(
        Rule::BoolLit,
        "false",
        token(Rule::BoolLit, 0, 5, vec![leaf(Rule::FalseLit, 0, 5)]),
    );
}

#[test]
fn digit_test() {
    parses_to(
        Rule::Number,
        "9",
        token(Rule::Number, 0, 1, vec![token(Rule::Int, 0, 1, vec![leaf(Rule::Digit, 0, 1)])]),
    );
    parses_to(
        Rule::Number,
        "4",
        token(Rule::Number, 0, 1, vec![token(Rule::Int, 0, 1, vec![leaf(Rule::Digit, 0, 1)])]),
    );
}

#[test]
fn int_test() {
    parses_to(
        Rule::Number,
        "123",
        token(
            Rule::Number,
            0,
            3,
            vec![token(
                Rule::Int,
                0,
                3,
                vec![leaf(Rule::Digit, 0, 1), leaf(Rule::Digit, 1, 2), leaf(Rule::Digit, 2, 3)],
            )],
        ),
    );
}

#[test]
fn float_test() {
    parses_to(
        Rule::Number,
        "123.123",
        token(
            Rule::Number,
            0,
            7,
            vec![
                token(
                    Rule::Int,
                    0,
                    3,
                    vec![
                        leaf(Rule::Digit, 0, 1),
                        leaf(Rule::Digit, 1, 2),
                        leaf(Rule::Digit, 2, 3),
                    ],
                ),
                leaf(Rule::Dot, 3, 4),
                token(
                    Rule::Int,
                    4,
                    7,
                    vec![
                        leaf(Rule::Digit, 4, 5),
                        leaf(Rule::Digit, 5, 6),
                        leaf(Rule::Digit, 6, 7),
                    ],
                ),
            ],
        ),
    );
}

#[test]
fn test_object_key() {
    parses_to(Rule::Word, "te5", leaf(Rule::Word, 0, 3));
}

#[test]
fn test_dot_notation() {
    parses_to(
        Rule::JsonPath,
        "$.test.123",
        token(
            Rule::RootPath,
            0,
            10,
            vec![
                token(Rule::Key, 1, 6, vec![leaf(Rule::Word, 2, 6)]),
                token(Rule::Key, 6, 10, vec![leaf(Rule::Word, 7, 10)]),
            ],
        ),
    );
}

#[test]
fn test_key_notation() {
    parses_to(
        Rule::JsonPath,
        "$[\"test\"][\"blarg\"]",
        token(
            Rule::RootPath,
            0,
            18,
            vec![
                token(Rule::Key, 1, 9, vec![leaf(Rule::Word, 3, 7)]),
                token(Rule::Key, 9, 18, vec![leaf(Rule::Word, 11, 16)]),
            ],
        ),
    );
}

#[test]
fn test_key_notation_json_path() {
    parses_to(
        Rule::JsonPath,
        "$[\"test\"][$.test]",
        token(
            Rule::RootPath,
            0,
            17,
            vec![
                token(Rule::Key, 1, 9, vec![leaf(Rule::Word, 3, 7)]),
                token(
                    Rule::Key,
                    9,
                    17,
                    vec![token(
                        Rule::RootPath,
                        10,
                        16,
                        vec![token(Rule::Key, 11, 16, vec![leaf(Rule::Word, 12, 16)])],
                    )],
                ),
            ],
        ),
    );
}

#[test]
fn root_alone_is_a_path() {
    parses_to(Rule::JsonPath, "$", leaf(Rule::RootPath, 0, 1));
    parses_to(Rule::RootPath, "$", leaf(Rule::RootPath, 0, 1));
}

#[test]
fn empty_input_is_no_path() {
    assert_eq!(parse(Rule::JsonPath, ""), Err(ParseError::Expected { rule: Rule::JsonPath }));
    assert_eq!(parse(Rule::Word, ""), Err(ParseError::Expected { rule: Rule::Word }));
}

#[test]
fn input_that_starts_wrong_is_refused_at_the_start() {
    assert_eq!(parse(Rule::JsonPath, "x.foo"), Err(ParseError::Expected { rule: Rule::JsonPath }));
    assert_eq!(parse(Rule::Key, "foo"), Err(ParseError::Expected { rule: Rule::Key }));
    assert_eq!(parse(Rule::Number, ".5"), Err(ParseError::Expected { rule: Rule::Number }));
}

#[test]
fn trailing_input_is_refused_where_the_match_ends() {
    assert_eq!(parse(Rule::JsonPath, "$.a b"), Err(ParseError::TrailingInput { position: 3 }));
    assert_eq!(parse(Rule::JsonPath, "$.foo["), Err(ParseError::TrailingInput { position: 5 }));
    assert_eq!(parse(Rule::JsonPath, "$.foo."), Err(ParseError::TrailingInput { position: 5 }));
    assert_eq!(parse(Rule::JsonPath, "$$"), Err(ParseError::TrailingInput { position: 1 }));
    assert_eq!(parse(Rule::Word, "te-5"), Err(ParseError::TrailingInput { position: 2 }));
    assert_eq!(parse(Rule::BoolLit, "truex"), Err(ParseError::TrailingInput { position: 4 }));
}

#[test]
fn a_number_keeps_a_dot_only_with_digits_behind_it() {
    assert_eq!(parse(Rule::Number, "12."), Err(ParseError::TrailingInput { position: 2 }));
    assert_eq!(parse(Rule::Number, "1.2.3"), Err(ParseError::TrailingInput { position: 3 }));
}

#[test]
fn characters_outside_ascii_end_a_word() {
    assert_eq!(parse(Rule::JsonPath, "$.caf\u{e9}"), Err(ParseError::TrailingInput { position: 5 }));
    assert_eq!(parse(Rule::Word, "\u{e9}"), Err(ParseError::Expected { rule: Rule::Word }));
}

#[test]
fn every_operator_is_recognised() {
    let operators = [
        ("==", Rule::FilterEqual),
        ("!=", Rule::FilterNotEqual),
        ("<", Rule::FilterLess),
        ("<=", Rule::FilterLessEqual),
        (">", Rule::FilterGreater),
        (">=", Rule::FilterGreaterEqual),
        ("=~", Rule::FilterRegex),
        ("in", Rule::FilterIn),
        ("nin", Rule::FilterNin),
        ("subsetof", Rule::FilterSubsetof),
        ("size", Rule::FilterSize),
        ("empty", Rule::FilterEmpty),
    ];
    for (text, rule) in operators {
        parses_to(rule, text, leaf(rule, 0, text.len()));
        let input = format!("[?(@.a {} @.b)]", text);
        let key = parse(Rule::Key, &input).unwrap();
        let expression = &key.children[0].children[0];
        assert_eq!(expression.rule, Rule::FilterExpression);
        assert_eq!(expression.children[1].rule, rule);
        assert_eq!(expression.children[1].text, text);
        assert_eq!((expression.children[1].start, expression.children[1].end), (7, 7 + text.len()));
    }
}

#[test]
fn spaces_are_taken_around_the_operator_only() {
    parses_to(
        Rule::FilterExpression,
        "@.a==1",
        token(
            Rule::FilterExpression,
            0,
            6,
            vec![
                token(Rule::FilterValue, 0, 3, vec![token(Rule::Key, 1, 3, vec![leaf(Rule::Word, 2, 3)])]),
                leaf(Rule::FilterEqual, 3, 5),
                token(Rule::Number, 5, 6, vec![token(Rule::Int, 5, 6, vec![leaf(Rule::Digit, 5, 6)])]),
            ],
        ),
    );
    let spaced = parse(Rule::FilterExpression, "@.a   !=   'b'").unwrap();
    assert_eq!((spaced.start, spaced.end), (0, 14));
    assert_eq!(spaced.children[1].rule, Rule::FilterNotEqual);
    assert_eq!((spaced.children[2].start, spaced.children[2].end), (12, 13));
    assert_eq!(spaced.children[2].text, "b");
    assert!(parse(Rule::Key, "[?( @.a)]").is_err());
    assert!(parse(Rule::Key, "[?(@.a )]").is_err());
    assert!(parse(Rule::JsonPath, "$ .a").is_err());
    assert!(parse(Rule::JsonPath, "$. a").is_err());
}

#[test]
fn a_quoted_word_is_the_right_operand_without_its_quotes() {
    let expression = parse(Rule::FilterExpression, "@.category == 'reference'").unwrap();
    assert_eq!((expression.start, expression.end), (0, 25));
    let right = &expression.children[2];
    assert_eq!(right.rule, Rule::Word);
    assert_eq!((right.start, right.end), (15, 24));
    assert_eq!(right.text, "reference");
    assert!(parse(Rule::FilterExpression, "@.category == reference").is_err());
    assert!(parse(Rule::FilterExpression, "@.category == 'refer ence'").is_err());
}

#[test]
fn a_comparison_is_tried_before_a_bare_filter_value() {
    let filter = parse(Rule::Filter, "?(@.a == @.b)").unwrap();
    assert_eq!(filter.children[0].rule, Rule::FilterExpression);
    let filter = parse(Rule::Filter, "?(@.a)").unwrap();
    assert_eq!(filter.children[0].rule, Rule::FilterValue);
    assert!(parse(Rule::Filter, "?(@.a == )").is_err());
}

#[test]
fn brackets_hold_a_quoted_word_a_path_or_a_filter() {
    assert_eq!(parse(Rule::Key, "[\"a\"]").unwrap().children[0].rule, Rule::Word);
    assert_eq!(parse(Rule::Key, "[$.a]").unwrap().children[0].rule, Rule::RootPath);
    assert_eq!(parse(Rule::Key, "[?(@.a)]").unwrap().children[0].rule, Rule::Filter);
    assert!(parse(Rule::Key, "[a]").is_err());
    assert!(parse(Rule::Key, "['a']").is_err());
    assert!(parse(Rule::Key, "[\"a\"").is_err());
    assert!(parse(Rule::Key, "[]").is_err());
}

#[test]
fn paths_nest_in_brackets() {
    let path = parse(Rule::JsonPath, "$[$[$.a]].b[?(@[$.c] == 1.5)]").unwrap();
    assert_eq!((path.start, path.end), (0, 29));
    assert_eq!(path.children.len(), 3);
    let inner = &path.children[0].children[0];
    assert_eq!(inner.rule, Rule::RootPath);
    assert_eq!(inner.text, "$[$.a]");
    assert_eq!(inner.children[0].children[0].text, "$.a");
}
