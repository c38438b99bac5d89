use jsonpath::value::find;
use jsonpath::{Entry, Number, Value};

fn object(entries: Vec<(&str, Value)>) -> Value {
    Value::Object(
        entries.into_iter().map(|(key, value)| Entry { key: key.to_string(), value }).collect(),
    )
}

fn array(items: Vec<Value>) -> Value {
    Value::Array(items)
}

fn string(text: &str) -> Value {
    Value::String(text.to_string())
}

fn whole(n: u64) -> Value {
    Value::Number(Number::PosInt(n))
}

fn float(x: f64) -> Value {
    Value::Number(Number::Float(x.to_bits()))
}

#[test]
fn indexing_finds_the_first_binding_of_a_key() {
    let value = object(vec![("a", whole(1)), ("b", whole(2)), ("a", whole(3))]);
    assert_eq!(value.index(&"a".to_string()), whole(1));
    assert_eq!(value.index(&"b".to_string()), whole(2));
    assert_eq!(value.index(&"c".to_string()), Value::Null);
    assert_eq!(value.index(&"".to_string()), Value::Null);
    match &value {
        Value::Object(entries) => {
            assert_eq!(find(entries, &"a".to_string()), 0);
            assert_eq!(find(entries, &"b".to_string()), 1);
            assert_eq!(find(entries, &"c".to_string()), 3);
        }
        _ => unreachable!(),
    }
}

#[test]
fn indexing_a_value_that_is_no_object_gives_null() {
    let key = "a".to_string();
    for value in [Value::Null, Value::Bool(true), whole(1), string("a"), array(vec![object(vec![("a", whole(1))])])] {
        assert_eq!(value.index(&key), Value::Null);
    }
}

#[test]
fn only_null_is_null() {
    assert!(Value::Null.is_null());
    for value in [Value::Bool(false), whole(0), float(0.0), string(""), array(vec![]), object(vec![])] {
        assert!(!value.is_null());
    }
}

#[test]
fn values_of_different_kinds_are_unequal() {
    let values = [
        Value::Null,
        Value::Bool(false),
        whole(0),
        Value::Number(Number::NegInt(0)),
        float(0.0),
        string(""),
        array(vec![]),
        object(vec![]),
    ];
    for (i, a) in values.iter().enumerate() {
        for (j, b) in values.iter().enumerate() {
            assert_eq!(a.equals(b), i == j);
            assert_eq!(a == b, i == j);
        }
    }
}

#[test]
fn an_integer_never_equals_a_float() {
    assert_ne!(whole(12), float(12.0));
    assert_ne!(Value::Number(Number::NegInt(-1)), float(-1.0));
    assert_ne!(whole(1), Value::Number(Number::NegInt(1)));
    assert_eq!(whole(u64::MAX), whole(u64::MAX));
    assert_eq!(Value::Number(Number::NegInt(i64::MIN)), Value::Number(Number::NegInt(i64::MIN)));
    assert_ne!(whole(1), whole(2));
}

#[test]
fn floats_are_equal_as_ieee_754_has_it() {
    let samples = [
        0.0,
        -0.0,
        1.0,
        -1.0,
        12.99,
        12.990000000000002,
        f64::MIN_POSITIVE,
        5e-324,
        f64::MAX,
        f64::MIN,
        f64::INFINITY,
        f64::NEG_INFINITY,
        f64::NAN,
        -f64::NAN,
        f64::from_bits(0x7ff0_0000_0000_0001),
        f64::from_bits(0xfff8_0000_0000_0001),
    ];
    for a in samples {
        for b in samples {
            let left = Number::Float(a.to_bits());
            let right = Number::Float(b.to_bits());
            assert_eq!(left.equals(&right), a == b, "{:?} and {:?}", a, b);
            assert_eq!(left == right, a == b);
        }
    }
}

#[test]
fn arrays_are_equal_element_by_element() {
    assert_eq!(array(vec![whole(1), string("a")]), array(vec![whole(1), string("a")]));
    assert_ne!(array(vec![whole(1), string("a")]), array(vec![string("a"), whole(1)]));
    assert_ne!(array(vec![whole(1)]), array(vec![whole(1), whole(1)]));
    assert_ne!(array(vec![array(vec![float(0.5)])]), array(vec![array(vec![float(0.25)])]));
    assert_eq!(array(vec![float(0.0)]), array(vec![float(-0.0)]));
}

#[test]
fn objects_are_equal_whatever_the_order_of_their_entries() {
    let a = object(vec![("x", whole(1)), ("y", array(vec![whole(2)]))]);
    let b = object(vec![("y", array(vec![whole(2)])), ("x", whole(1))]);
    assert_eq!(a, b);
    assert_eq!(b, a);
    assert_ne!(a, object(vec![("x", whole(1))]));
    assert_ne!(object(vec![("x", whole(1))]), a);
    assert_ne!(a, object(vec![("x", whole(1)), ("y", array(vec![whole(3)]))]));
    assert_ne!(a, object(vec![("x", whole(1)), ("z", array(vec![whole(2)]))]));
}

#[test]
fn a_later_entry_of_a_key_that_is_bound_does_not_count() {
    let a = object(vec![("x", whole(1)), ("x", whole(2))]);
    assert_eq!(a, object(vec![("x", whole(1))]));
    assert_eq!(object(vec![("x", whole(1))]), a);
    assert_ne!(a, object(vec![("x", whole(2))]));
    assert_eq!(a, object(vec![("x", whole(1)), ("x", whole(3))]));
}

#[test]
fn a_clone_is_equal_and_apart() {
    let source = object(vec![
        ("a", array(vec![whole(1), float(2.5), Value::Null, Value::Bool(true)])),
        ("b", object(vec![("c", string("d"))])),
    ]);
    let mut copy = source.clone();
    assert_eq!(copy, source);
    match &copy {
        Value::Object(entries) => {
            assert_eq!(entries.len(), 2);
            assert_eq!(entries[0].key, "a");
            assert_eq!(entries[1].key, "b");
        }
        _ => unreachable!(),
    }
    if let Value::Object(entries) = &mut copy {
        entries[0].value = Value::Null;
    }
    assert_ne!(copy, source);
    assert_eq!(source.index(&"a".to_string()), array(vec![whole(1), float(2.5), Value::Null, Value::Bool(true)]));
}
