use jsonpath::{
    number_literals, number_of, parse, Entry, EvalError, Node, Number, ParseError, QueryError,
    Rule, Runner, Value,
};
use std::cell::RefCell;

fn float_bits(text: &str) -> Option<u64> {
    text.parse::<f64>().ok().map(f64::to_bits)
}

fn object(entries: Vec<(&str, Value)>) -> Value {
    Value::Object(
        entries.into_iter().map(|(key, value)| Entry { key: key.to_string(), value }).collect(),
    )
}

fn array(items: Vec<Value>) -> Value {
    Value::Array(items)
}

fn string(text: &str) -> Value {
    Value::String(text.to_string())
}

fn whole(n: u64) -> Value {
    Value::Number(Number::PosInt(n))
}

fn float(x: f64) -> Value {
    Value::Number(Number::Float(x.to_bits()))
}

fn from_json(value: &serde_json::Value) -> Value {
    match value {
        serde_json::Value::Null => Value::Null,
        serde_json::Value::Bool(b) => Value::Bool(*b),
        serde_json::Value::Number(n) => {
            if let Some(u) = n.as_u64() {
                Value::Number(Number::PosInt(u))
            } else if let Some(i) = n.as_i64() {
                Value::Number(Number::NegInt(i))
            } else {
                Value::Number(Number::Float(n.as_f64().unwrap().to_bits()))
            }
        }
        serde_json::Value::String(s) => Value::String(s.clone()),
        serde_json::Value::Array(items) => Value::Array(items.iter().map(from_json).collect()),
        serde_json::Value::Object(map) => Value::Object(
            map.iter().map(|(key, value)| Entry { key: key.clone(), value: from_json(value) }).collect(),
        ),
    }
}

fn to_json(value: &Value) -> serde_json::Value {
    match value {
        Value::Null => serde_json::Value::Null,
        Value::Bool(b) => serde_json::Value::Bool(*b),
        Value::Number(Number::PosInt(u)) => serde_json::Value::from(*u),
        Value::Number(Number::NegInt(i)) => serde_json::Value::from(*i),
        Value::Number(Number::Float(bits)) => serde_json::Value::from(f64::from_bits(*bits)),
        Value::String(s) => serde_json::Value::String(s.clone()),
        Value::Array(items) => serde_json::Value::Array(items.iter().map(to_json).collect()),
        Value::Object(entries) => {
            let mut map = serde_json::Map::new();
            for entry in entries.iter().rev() {
                map.insert(entry.key.clone(), to_json(&entry.value));
            }
            serde_json::Value::Object(map)
        }
    }
}

fn json_path(json: &str, path: &str) -> String {
    let value: serde_json::Value = serde_json::from_str(json).unwrap();
    let output = jsonpath::json_path(from_json(&value), path, float_bits).unwrap();
    serde_json::to_string(&to_json(&output)).unwrap()
}

fn book(category: &str, author: &str, title: &str, isbn: Option<&str>, price: f64) -> Value {
    let mut entries = vec![
        ("category", string(category)),
        ("author", string(author)),
        ("title", string(title)),
    ];
    if let Some(isbn) = isbn {
        entries.push(("isbn", string(isbn)));
    }
    entries.push(("price", float(price)));
    object(entries)
}

fn test_json() -> Value {
    object(vec![
        (
            "store",
            object(vec![
                (
                    "book",
                    array(vec![
                        book("reference", "Nigel Rees", "Sayings of the Century", None, 8.95),
                        book("fiction", "Evelyn Waugh", "Sword of Honour", None, 12.99),
                        book("fiction", "Evelyn Waugh", "Old man and the sea", None, 12.99),
                        book("fiction", "Herman Melville", "Moby Dick", Some("0-553-21311-3"), 8.99),
                        book(
                            "fiction",
                            "J. R. R. Tolkien",
                            "The Lord of the Rings",
                            Some("0-395-19395-8"),
                            22.99,
                        ),
                    ]),
                ),
                ("bicycle", object(vec![("color", string("red")), ("price", float(19.95))])),
            ]),
        ),
        ("expensive", whole(10)),
    ])
}

#[test]
fn test_external_func() {
    assert_eq!(json_path("{\"blarg\":5,\"test\":5}", "$.blarg"), "5");
}

#[test]
fn test_filter_expression_string() {
    let mut runner = Runner::new("$.store.book[?(@.category == 'reference')]", float_bits).unwrap();
    assert_eq!(
        runner.run(test_json()),
        Ok(array(vec![object(vec![
            ("category", string("reference")),
            ("author", string("Nigel Rees")),
            ("title", string("Sayings of the Century")),
            ("price", float(8.95)),
        ])]))
    );
}

#[test]
fn test_filter_expression() {
    let mut runner = Runner::new("$.store.book[?(@.price == 12.99)]", float_bits).unwrap();
    assert_eq!(
        runner.run(test_json()),
        Ok(array(vec![
            object(vec![
                ("category", string("fiction")),
                ("author", string("Evelyn Waugh")),
                ("title", string("Sword of Honour")),
                ("price", float(12.99)),
            ]),
            object(vec![
                ("category", string("fiction")),
                ("author", string("Evelyn Waugh")),
                ("title", string("Old man and the sea")),
                ("price", float(12.99)),
            ]),
        ]))
    );
}

#[test]
fn test_filter() {
    let value = object(vec![(
        "test",
        object(vec![(
            "array",
            array(vec![
                object(vec![("value", whole(5)), ("blarg", object(vec![("test", whole(15))]))]),
                object(vec![("value", whole(7))]),
                object(vec![]),
            ]),
        )]),
    )]);
    let mut runner = Runner::new("$.test.array[?(@.blarg.test)]", float_bits).unwrap();
    assert_eq!(
        runner.run(value),
        Ok(array(vec![object(vec![
            ("value", whole(5)),
            ("blarg", object(vec![("test", whole(15))])),
        ])]))
    );
}

#[test]
fn test_json_path_nesting() {
    let value = object(vec![
        ("myKey", string("key")),
        ("object", object(vec![("key", string("SUCCESS"))])),
    ]);
    let mut runner = Runner::new("$.object[$.myKey]", float_bits).unwrap();
    assert_eq!(Ok(string("SUCCESS")), runner.run(value));
}

#[test]
fn test_mixed_traversal() {
    let value = object(vec![
        ("test", string("blarg")),
        ("whatev", object(vec![("test", string("hi!"))])),
    ]);
    let mut runner = Runner::new("$[\"whatev\"].test", float_bits).unwrap();
    assert_eq!(runner.run(value.clone()), Ok(string("hi!")));
    assert_eq!(runner.run(value.clone()), Ok(string("hi!")));
}

#[test]
fn test_obj_bracket_traversal() {
    let value = object(vec![
        ("test", string("blarg")),
        ("whatev", object(vec![("test", string("hi!"))])),
    ]);
    let mut runner = Runner::new("$[\"whatev\"][\"test\"]", float_bits).unwrap();
    assert_eq!(runner.run(value), Ok(string("hi!")));
}

#[test]
fn test_obj_dot_traversal() {
    let value = object(vec![
        ("test", string("blarg")),
        ("whatev", object(vec![("test", string("hi!"))])),
    ]);
    let mut runner = Runner::new("$.whatev.test", float_bits).unwrap();
    assert_eq!(runner.run(value), Ok(string("hi!")));
}

#[test]
fn a_query_over_json_text_gives_json_text() {
    let json = "{\"store\":{\"book\":[{\"price\":8.95,\"n\":-1},{\"price\":12.99,\"n\":2}]}}";
    assert_eq!(json_path(json, "$.store.book[?(@.price == 12.99)]"), "[{\"n\":2,\"price\":12.99}]");
    assert_eq!(json_path(json, "$.store.book[?(@.price != 12.99)]"), "[{\"n\":-1,\"price\":8.95}]");
    assert_eq!(json_path(json, "$.store.nothing"), "null");
    assert_eq!(json_path("[1,2.5,\"a\",null,true]", "$"), "[1,2.5,\"a\",null,true]");
}

#[test]
fn a_query_over_a_document_reports_why_it_gives_no_value() {
    assert_eq!(jsonpath::json_path(test_json(), "$.expensive", float_bits), Ok(whole(10)));
    assert_eq!(
        jsonpath::json_path(test_json(), "expensive", float_bits),
        Err(QueryError::Path(ParseError::Expected { rule: Rule::JsonPath }))
    );
    assert_eq!(
        jsonpath::json_path(test_json(), "$.expensive!", float_bits),
        Err(QueryError::Path(ParseError::TrailingInput { position: 11 }))
    );
    assert_eq!(
        jsonpath::json_path(test_json(), "$.store.book[?(@.price > 10)]", float_bits),
        Err(QueryError::Eval(EvalError::UnsupportedOperator { operator: Rule::FilterGreater }))
    );
    assert_eq!(
        jsonpath::json_path(test_json(), "$.store[?(@.price)]", float_bits),
        Err(QueryError::Eval(EvalError::NotAnArray))
    );
    assert_eq!(
        jsonpath::json_path(test_json(), "$.store[$.expensive]", float_bits),
        Err(QueryError::Eval(EvalError::KeyNotString))
    );
    assert_eq!(
        jsonpath::json_path(test_json(), "$.store.book[?(@.price == 1.5)]", |_: &str| None),
        Err(QueryError::Eval(EvalError::InvalidNumber))
    );
}

#[test]
fn the_root_alone_selects_the_document() {
    let mut runner = Runner::new("$", float_bits).unwrap();
    assert_eq!(runner.run(test_json()), Ok(test_json()));
    assert_eq!(runner.run(Value::Null), Ok(Value::Null));
}

#[test]
fn keys_select_the_nested_value() {
    let mut runner = Runner::new("$.store.bicycle.color", float_bits).unwrap();
    assert_eq!(runner.run(test_json()), Ok(string("red")));
    let mut runner = Runner::new("$.store.bicycle", float_bits).unwrap();
    assert_eq!(
        runner.run(test_json()),
        Ok(object(vec![("color", string("red")), ("price", float(19.95))]))
    );
}

#[test]
fn an_absent_segment_gives_null() {
    for path in ["$.nothing", "$.store.nothing", "$.store.nothing.color", "$.nothing.bicycle.color"] {
        let mut runner = Runner::new(path, float_bits).unwrap();
        assert_eq!(runner.run(test_json()), Ok(Value::Null));
    }
}

#[test]
fn a_key_of_a_value_that_is_no_object_gives_null() {
    let mut runner = Runner::new("$.expensive.more", float_bits).unwrap();
    assert_eq!(runner.run(test_json()), Ok(Value::Null));
    let mut runner = Runner::new("$.store.book.category", float_bits).unwrap();
    assert_eq!(runner.run(test_json()), Ok(Value::Null));
    let mut runner = Runner::new("$.a", float_bits).unwrap();
    assert_eq!(runner.run(string("a")), Ok(Value::Null));
}

#[test]
fn brackets_and_dots_select_the_same() {
    let document = object(vec![("foo", object(vec![("bar", whole(7)), ("baz", Value::Null)]))]);
    let mut dots = Runner::new("$.foo.bar", float_bits).unwrap();
    let mut brackets = Runner::new("$[\"foo\"][\"bar\"]", float_bits).unwrap();
    assert_eq!(dots.run(document.clone()), Ok(whole(7)));
    assert_eq!(dots.run(document.clone()), brackets.run(document.clone()));
    assert_eq!(dots.run(test_json()), brackets.run(test_json()));
    assert_eq!(dots.run(Value::Bool(true)), brackets.run(Value::Bool(true)));
}

#[test]
fn an_existence_filter_keeps_the_elements_with_a_value() {
    let elements = array(vec![
        object(vec![("k", whole(1)), ("n", whole(0))]),
        object(vec![("j", whole(2))]),
        object(vec![("k", Value::Null)]),
        whole(3),
        object(vec![("k", Value::Bool(false)), ("n", whole(4))]),
        object(vec![("k", string(""))]),
    ]);
    let mut runner = Runner::new("$[?(@.k)]", float_bits).unwrap();
    assert_eq!(
        runner.run(elements),
        Ok(array(vec![
            object(vec![("k", whole(1)), ("n", whole(0))]),
            object(vec![("k", Value::Bool(false)), ("n", whole(4))]),
            object(vec![("k", string(""))]),
        ]))
    );
    assert_eq!(runner.run(array(vec![])), Ok(array(vec![])));
}

#[test]
fn an_equality_filter_and_its_complement_part_the_array() {
    let elements = vec![
        object(vec![("k", string("v"))]),
        object(vec![("k", string("w"))]),
        object(vec![]),
        object(vec![("k", whole(1))]),
        object(vec![("k", string("v")), ("n", whole(2))]),
    ];
    let mut equal = Runner::new("$[?(@.k == 'v')]", float_bits).unwrap();
    let mut unequal = Runner::new("$[?(@.k != 'v')]", float_bits).unwrap();
    assert_eq!(
        equal.run(array(elements.clone())),
        Ok(array(vec![elements[0].clone(), elements[4].clone()]))
    );
    assert_eq!(
        unequal.run(array(elements.clone())),
        Ok(array(vec![elements[1].clone(), elements[2].clone(), elements[3].clone()]))
    );
}

#[test]
fn a_filter_compares_two_values_of_the_element() {
    let elements = vec![
        object(vec![("a", whole(1)), ("b", whole(1))]),
        object(vec![("a", whole(1)), ("b", whole(2))]),
        object(vec![]),
        object(vec![("a", array(vec![whole(1), string("x")])), ("b", array(vec![whole(1), string("x")]))]),
        object(vec![("a", object(vec![("x", whole(1)), ("y", whole(2))])), ("b", object(vec![("y", whole(2)), ("x", whole(1))]))]),
    ];
    let mut runner = Runner::new("$[?(@.a == @.b)]", float_bits).unwrap();
    assert_eq!(
        runner.run(array(elements.clone())),
        Ok(array(vec![
            elements[0].clone(),
            elements[2].clone(),
            elements[3].clone(),
            elements[4].clone(),
        ]))
    );
}

#[test]
fn a_numeric_literal_equals_only_the_same_float() {
    let elements = vec![
        object(vec![("price", float(12.99))]),
        object(vec![("price", whole(12))]),
        object(vec![("price", string("12.99"))]),
        object(vec![("price", float(12.990000000000002))]),
        object(vec![("price", float(12.0))]),
        object(vec![("price", Value::Number(Number::NegInt(-12)))]),
    ];
    let mut runner = Runner::new("$[?(@.price == 12.99)]", float_bits).unwrap();
    assert_eq!(runner.run(array(elements.clone())), Ok(array(vec![elements[0].clone()])));
    let mut runner = Runner::new("$[?(@.price == 12.990)]", float_bits).unwrap();
    assert_eq!(runner.run(array(elements.clone())), Ok(array(vec![elements[0].clone()])));
    let mut runner = Runner::new("$[?(@.price == 12)]", float_bits).unwrap();
    assert_eq!(runner.run(array(elements.clone())), Ok(array(vec![elements[4].clone()])));
    let mut runner = Runner::new("$[?(@.price != 12.99)]", float_bits).unwrap();
    assert_eq!(runner.run(array(elements.clone())), Ok(array(elements[1..].to_vec())));
}

#[test]
fn a_literal_too_large_for_a_float_is_null() {
    let huge = "9".repeat(400);
    assert_eq!(float_bits(&huge), Some(f64::INFINITY.to_bits()));
    assert_eq!(number_of(&huge, float_bits(&huge)), Some(Value::Null));
    let elements = vec![object(vec![("k", whole(1))]), object(vec![]), object(vec![("k", Value::Null)])];
    let mut runner = Runner::new(&format!("$[?(@.k == {})]", huge), float_bits).unwrap();
    assert_eq!(
        runner.run(array(elements.clone())),
        Ok(array(vec![elements[1].clone(), elements[2].clone()]))
    );
}

#[test]
fn every_numeric_literal_is_asked_for_once_in_order() {
    let asked: RefCell<Vec<String>> = RefCell::new(vec![]);
    let record = |text: &str| {
        asked.borrow_mut().push(text.to_string());
        Some((asked.borrow().len() as f64).to_bits())
    };
    let path = "$.a[?(@.b == 1.5)][?(@[$.c[?(@.d != 2)]] == 1.5)]";
    let mut runner = Runner::new(path, record).unwrap();
    assert_eq!(*asked.borrow(), vec!["1.5".to_string(), "2".to_string(), "1.5".to_string()]);
    let tree = parse(Rule::JsonPath, path).unwrap();
    assert_eq!(number_literals(&tree), vec!["1.5".to_string(), "2".to_string(), "1.5".to_string()]);
    assert_eq!(number_literals(&parse(Rule::JsonPath, "$.a[\"1\"].2").unwrap()), Vec::<String>::new());
    let document = object(vec![(
        "a",
        array(vec![
            object(vec![("b", float(1.0))]),
            object(vec![("b", float(3.0))]),
            object(vec![("b", float(4.0))]),
        ]),
    )]);
    let mut first = Runner::new("$.a[?(@.b == 1.5)][?(@.b == 1.5)]", |_: &str| Some(1f64.to_bits())).unwrap();
    assert_eq!(first.run(document.clone()), Ok(array(vec![object(vec![("b", float(1.0))])])));
    let mut fourth = Runner::new("$.a[?(@.b == 1.5)]", record).unwrap();
    assert_eq!(fourth.run(document.clone()), Ok(array(vec![object(vec![("b", float(4.0))])])));
    let mut twice = Runner::new("$.a[?(@.b != 1.5)][?(@.b == 1.5)]", record).unwrap();
    assert_eq!(asked.borrow().len(), 6);
    assert_eq!(twice.run(document), Ok(array(vec![])));
    assert_eq!(runner.run(object(vec![("a", array(vec![]))])), Ok(array(vec![])));
}

#[test]
fn a_literal_is_worth_what_its_text_reads_as() {
    let document = array(vec![
        object(vec![("b", whole(7))]),
        object(vec![("b", float(7.0))]),
        object(vec![("b", float(1.5))]),
        object(vec![("b", Value::Null)]),
    ]);
    let mut runner = Runner::new("$[?(@.b == 7)]", float_bits).unwrap();
    assert_eq!(runner.run(document.clone()), Ok(array(vec![object(vec![("b", float(7.0))])])));
    let mut runner = Runner::new("$[?(@.b == 7)]", |_: &str| None).unwrap();
    assert_eq!(runner.run(document.clone()), Ok(array(vec![object(vec![("b", whole(7))])])));
    let mut runner = Runner::new("$[?(@.b == 7)]", |_: &str| Some(1.5f64.to_bits())).unwrap();
    assert_eq!(runner.run(document.clone()), Ok(array(vec![object(vec![("b", float(1.5))])])));
    let mut runner = Runner::new("$[?(@.b == 7)]", |_: &str| Some(f64::NAN.to_bits())).unwrap();
    assert_eq!(runner.run(document.clone()), Ok(array(vec![object(vec![("b", Value::Null)])])));
}

#[test]
fn a_literal_that_reads_as_no_number_is_refused_when_it_is_needed() {
    let document = array(vec![object(vec![("b", whole(7))])]);
    let mut runner = Runner::new("$[?(@.b == 1.5)]", |_: &str| None).unwrap();
    assert_eq!(runner.run(document.clone()), Err(EvalError::InvalidNumber));
    assert_eq!(runner.run(array(vec![])), Ok(array(vec![])));
    let mut runner = Runner::new("$[?(@.b == 18446744073709551616)]", |_: &str| None).unwrap();
    assert_eq!(runner.run(document.clone()), Err(EvalError::InvalidNumber));
    let mut runner = Runner::new("$[?(@.b == 18446744073709551615)]", |_: &str| None).unwrap();
    assert_eq!(runner.run(document), Ok(array(vec![])));
}

fn std_number(text: &str) -> Option<Value> {
    if let Ok(p_int) = text.parse::<u64>() {
        Some(Value::Number(Number::PosInt(p_int)))
    } else if let Ok(int) = text.parse::<i64>() {
        Some(if int < 0 {
            Value::Number(Number::NegInt(int))
        } else {
            Value::Number(Number::PosInt(int as u64))
        })
    } else {
        None
    }
}

#[test]
fn integers_are_read_as_the_standard_library_reads_them() {
    let texts = [
        "0", "7", "007", "12", "+5", "-5", "-0", "+0", "-007", "18446744073709551615",
        "18446744073709551616", "18446744073709551625", "28446744073709551615",
        "99999999999999999999999", "9223372036854775807", "9223372036854775808",
        "-9223372036854775807", "-9223372036854775808", "-9223372036854775809",
        "-18446744073709551615", "+18446744073709551615", "+9223372036854775808", "", "+", "-",
        "+-1", "-+1", "--1", "1.5", "1.", ".5", "a", "1a", "a1", " 1", "1 ", "1_000", "0x10",
        "\u{ff11}\u{ff12}", "\u{661}", "1e3",
    ];
    for text in texts {
        assert_eq!(number_of(text, None), std_number(text), "{:?}", text);
    }
    assert_eq!(number_of("12", None), Some(whole(12)));
    assert_eq!(number_of("-12", None), Some(Value::Number(Number::NegInt(-12))));
    assert_eq!(number_of("18446744073709551615", None), Some(whole(u64::MAX)));
    assert_eq!(number_of("-9223372036854775808", None), Some(Value::Number(Number::NegInt(i64::MIN))));
    assert_eq!(number_of("12.5", None), None);
}

#[test]
fn a_float_counts_before_an_integer() {
    assert_eq!(number_of("12", float_bits("12")), Some(float(12.0)));
    assert_eq!(number_of("12.99", float_bits("12.99")), Some(float(12.99)));
    assert_eq!(number_of("12", Some((-0.0f64).to_bits())), Some(float(-0.0)));
    assert_eq!(number_of("12", Some(f64::MAX.to_bits())), Some(float(f64::MAX)));
    assert_eq!(number_of("12", Some(5e-324f64.to_bits())), Some(float(5e-324)));
    for bits in [
        f64::INFINITY.to_bits(),
        f64::NEG_INFINITY.to_bits(),
        f64::NAN.to_bits(),
        0x7ff0_0000_0000_0001,
        0xffff_ffff_ffff_ffff,
    ] {
        assert_eq!(number_of("12", Some(bits)), Some(Value::Null));
    }
}

#[test]
fn a_run_leaves_the_query_as_it_was() {
    let mut runner = Runner::new("$.store.book[?(@.price != 8.95)]", float_bits).unwrap();
    let first = runner.run(test_json());
    let other = runner.run(object(vec![("store", object(vec![("book", array(vec![whole(1)]))]))]));
    let second = runner.run(test_json());
    assert_eq!(first, second);
    assert_eq!(other, Ok(array(vec![whole(1)])));
    match first {
        Ok(Value::Array(items)) => assert_eq!(items.len(), 4),
        _ => panic!("expected an array"),
    }
}

#[test]
fn a_reserved_operator_parses_and_is_refused_when_run() {
    let operators = [
        ("<", Rule::FilterLess),
        ("<=", Rule::FilterLessEqual),
        (">", Rule::FilterGreater),
        (">=", Rule::FilterGreaterEqual),
        ("=~", Rule::FilterRegex),
        ("in", Rule::FilterIn),
        ("nin", Rule::FilterNin),
        ("subsetof", Rule::FilterSubsetof),
        ("size", Rule::FilterSize),
        ("empty", Rule::FilterEmpty),
    ];
    let document = array(vec![object(vec![("value", whole(2)), ("test", whole(1))])]);
    for (text, operator) in operators {
        let mut runner = Runner::new(&format!("$[?(@.value {} @.test)]", text), float_bits).unwrap();
        assert_eq!(runner.run(document.clone()), Err(EvalError::UnsupportedOperator { operator }));
        assert_eq!(runner.run(array(vec![])), Ok(array(vec![])));
    }
}

#[test]
fn the_first_failure_in_the_order_of_evaluation_is_reported() {
    let document = array(vec![object(vec![("a", whole(1)), ("b", object(vec![]))])]);
    let mut runner = Runner::new("$[?(@.a[?(@.x)] > 1)]", float_bits).unwrap();
    assert_eq!(runner.run(document.clone()), Err(EvalError::NotAnArray));
    let mut runner = Runner::new("$[?(@.a > @.b[?(@.x)])]", float_bits).unwrap();
    assert_eq!(runner.run(document.clone()), Err(EvalError::NotAnArray));
    let mut runner = Runner::new("$[?(@.a > @.b[$.c])]", float_bits).unwrap();
    assert_eq!(runner.run(document.clone()), Err(EvalError::KeyNotString));
    let mut runner = Runner::new("$[?(@.a < 1)][?(@.a[$.c])]", float_bits).unwrap();
    assert_eq!(
        runner.run(document),
        Err(EvalError::UnsupportedOperator { operator: Rule::FilterLess })
    );
}

#[test]
fn a_filter_of_a_value_that_is_no_array_is_refused() {
    let mut runner = Runner::new("$.store[?(@.color)]", float_bits).unwrap();
    assert_eq!(runner.run(test_json()), Err(EvalError::NotAnArray));
    let mut runner = Runner::new("$.nothing[?(@.color)]", float_bits).unwrap();
    assert_eq!(runner.run(test_json()), Err(EvalError::NotAnArray));
}

#[test]
fn a_path_in_brackets_must_select_a_string() {
    let document = object(vec![
        ("name", string("k")),
        ("number", whole(1)),
        ("object", object(vec![("k", string("X")), ("1", string("Y"))])),
    ]);
    let mut runner = Runner::new("$.object[$.name]", float_bits).unwrap();
    assert_eq!(runner.run(document.clone()), Ok(string("X")));
    let mut runner = Runner::new("$.object[$.number]", float_bits).unwrap();
    assert_eq!(runner.run(document.clone()), Err(EvalError::KeyNotString));
    let mut runner = Runner::new("$.object[$.missing]", float_bits).unwrap();
    assert_eq!(runner.run(document.clone()), Err(EvalError::KeyNotString));
    let mut runner = Runner::new("$.nothing[$.name]", float_bits).unwrap();
    assert_eq!(runner.run(document), Ok(Value::Null));
}

#[test]
fn a_path_in_brackets_names_the_key_by_its_result() {
    let document = object(vec![
        ("a", object(vec![("b", object(vec![("c", whole(1)), ("d", whole(2)), ("x", whole(3))]))])),
        ("c", object(vec![("d", string("x"))])),
    ]);
    let mut runner = Runner::new("$.a.b[$.c.d]", float_bits).unwrap();
    assert_eq!(runner.run(document.clone()), Ok(whole(3)));
    let mut runner = Runner::new("$[\"a\"].b[$.c[\"d\"]]", float_bits).unwrap();
    assert_eq!(runner.run(document.clone()), Ok(whole(3)));
    let mut runner = Runner::new("$.a.b[$.c]", float_bits).unwrap();
    assert_eq!(runner.run(document), Err(EvalError::KeyNotString));
}

#[test]
fn a_path_in_brackets_starts_at_the_root_and_a_filter_value_at_the_element() {
    let document = object(vec![
        ("key", string("a")),
        ("items", array(vec![
            object(vec![("key", string("b")), ("a", whole(1)), ("b", whole(2))]),
            object(vec![("key", string("b")), ("b", whole(3))]),
        ])),
    ]);
    let mut runner = Runner::new("$.items[?(@[$.key])]", float_bits).unwrap();
    assert_eq!(
        runner.run(document.clone()),
        Ok(array(vec![object(vec![("key", string("b")), ("a", whole(1)), ("b", whole(2))])]))
    );
    let mut runner = Runner::new("$.items[?(@.key == 'b')]", float_bits).unwrap();
    match runner.run(document) {
        Ok(Value::Array(items)) => assert_eq!(items.len(), 2),
        other => panic!("expected an array, got {:?}", other),
    }
}

#[test]
fn a_query_that_is_no_sentence_makes_no_runner() {
    assert_eq!(
        Runner::new("store.book", float_bits).err(),
        Some(ParseError::Expected { rule: Rule::JsonPath })
    );
    assert_eq!(Runner::new("", float_bits).err(), Some(ParseError::Expected { rule: Rule::JsonPath }));
    assert_eq!(
        Runner::new("$.store.book[?(@.price == )]", float_bits).err(),
        Some(ParseError::TrailingInput { position: 12 })
    );
    assert_eq!(
        Runner::new("$.store book", float_bits).err(),
        Some(ParseError::TrailingInput { position: 7 })
    );
}

fn node(rule: Rule, text: &str, children: Vec<Node>) -> Node {
    Node { rule, start: 0, end: text.len(), text: text.to_string(), children }
}

#[test]
fn a_tree_that_the_grammar_never_gives_is_found_malformed() {
    let runner = Runner::new("$", float_bits).unwrap();
    let context = object(vec![("a", whole(1))]);
    let word = || node(Rule::Word, "a", vec![]);
    assert_eq!(runner.key(&context, &node(Rule::Key, ".a", vec![word()])), Ok(whole(1)));
    assert_eq!(runner.key(&context, &node(Rule::Key, ".a", vec![])), Err(EvalError::Malformed));
    assert_eq!(
        runner.key(&context, &node(Rule::Key, ".a", vec![node(Rule::Number, "1", vec![])])),
        Err(EvalError::Malformed)
    );
    assert_eq!(
        runner.eval_path(context.clone(), &node(Rule::RootPath, "$a", vec![word()])),
        Err(EvalError::Malformed)
    );
    assert_eq!(
        runner.filter_value(&context, &node(Rule::RootPath, "$", vec![])),
        Err(EvalError::Malformed)
    );
    assert_eq!(runner.should_filter(&context, &word()), Err(EvalError::Malformed));
    assert_eq!(
        runner.filter(&array(vec![]), &node(Rule::Filter, "?()", vec![])),
        Err(EvalError::Malformed)
    );
    let value = || node(Rule::FilterValue, "@", vec![]);
    assert_eq!(
        runner.filter_expression(&context, &node(Rule::FilterExpression, "@", vec![value(), value()])),
        Err(EvalError::Malformed)
    );
    assert_eq!(
        runner.filter_expression(
            &context,
            &node(Rule::FilterExpression, "@ . @", vec![value(), node(Rule::Dot, ".", vec![]), value()])
        ),
        Err(EvalError::Malformed)
    );
    assert_eq!(
        runner.filter_expression(
            &context,
            &node(
                Rule::FilterExpression,
                "@ == 1",
                vec![value(), node(Rule::FilterEqual, "==", vec![]), node(Rule::Number, "1", vec![])]
            )
        ),
        Err(EvalError::InvalidNumber)
    );
    assert_eq!(
        runner.filter_expression(
            &context,
            &node(
                Rule::FilterExpression,
                "@ == 1",
                vec![value(), node(Rule::FilterEqual, "==", vec![]), node(Rule::Filter, "1", vec![])]
            )
        ),
        Err(EvalError::Malformed)
    );
    assert_eq!(runner.parse_number(&node(Rule::Number, "1", vec![])), Err(EvalError::InvalidNumber));
}

#[test]
fn the_parts_of_the_evaluator_work_on_the_trees_of_the_parser() {
    let mut runner = Runner::new("$[?(@.n == 2.5)]", float_bits).unwrap();
    let document = object(vec![("n", float(2.5)), ("list", array(vec![whole(1), Value::Null]))]);
    assert_eq!(runner.run(array(vec![])), Ok(array(vec![])));
    let key = parse(Rule::Key, "[\"n\"]").unwrap();
    assert_eq!(runner.key(&document, &key), Ok(float(2.5)));
    let value = parse(Rule::FilterValue, "@.list").unwrap();
    assert_eq!(runner.filter_value(&document, &value), Ok(array(vec![whole(1), Value::Null])));
    assert_eq!(runner.should_filter(&document, &value), Ok(true));
    assert_eq!(runner.should_filter(&document, &parse(Rule::FilterValue, "@.m").unwrap()), Ok(false));
    let comparison = parse(Rule::FilterExpression, "@.n == 2.5").unwrap();
    assert_eq!(runner.filter_expression(&document, &comparison), Ok(true));
    assert_eq!(runner.should_filter(&document, &comparison), Ok(true));
    assert_eq!(runner.parse_number(&comparison.children[2]), Ok(float(2.5)));
    let other = parse(Rule::FilterExpression, "@.n == 3.5").unwrap();
    assert_eq!(runner.filter_expression(&document, &other), Err(EvalError::InvalidNumber));
    let filter = parse(Rule::Filter, "?(@.n != 2.5)").unwrap();
    assert_eq!(
        runner.filter(&array(vec![document.clone(), whole(1)]), &filter),
        Ok(array(vec![whole(1)]))
    );
    let path = parse(Rule::RootPath, "$.list").unwrap();
    assert_eq!(runner.run(document.clone()).is_err(), true);
    assert_eq!(runner.root(&path), Ok(array(vec![whole(1), Value::Null])));
    assert_eq!(runner.eval_path(object(vec![("list", whole(9))]), &path), Ok(whole(9)));
}
