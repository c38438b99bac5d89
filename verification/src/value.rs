//! The JSON document model: executable values, their mathematical view, and
//! the two operations the evaluator needs from them, keyed lookup and
//! structural equality.

use vstd::prelude::*;

verus! {

/// Two to the power 52: the weight of the lowest exponent bit of a binary64.
pub const FRACTION_SPAN: u64 = 0x10_0000_0000_0000;

/// Two to the power 11: the number of exponent patterns of a binary64.
pub const EXPONENT_SPAN: u64 = 0x800;

/// Two to the power 63: the weight of the sign bit of a binary64.
pub const SIGN_SPAN: u64 = 0x8000_0000_0000_0000;

/// A JSON number. A float is held as the bit pattern of its IEEE 754 binary64
/// encoding, so that the document model needs integers only.
#[derive(Clone, Copy, Debug)]
pub enum Number {
    PosInt(u64),
    NegInt(i64),
    Float(u64),
}

/// A JSON value. An object is a list of entries; the binding of a key is the
/// first entry that carries it.
#[derive(Debug)]
pub enum Value {
    Null,
    Bool(bool),
    Number(Number),
    String(String),
    Array(Vec<Value>),
    Object(Vec<Entry>),
}

/// One entry of an object: a key and the value it is bound to.
#[derive(Debug)]
pub struct Entry {
    pub key: String,
    pub value: Value,
}

/// The mathematical view of a [`Value`].
pub enum Json {
    Null,
    Bool(bool),
    Number(Number),
    String(Seq<char>),
    Array(Seq<Json>),
    Object(Seq<JsonEntry>),
}

/// The mathematical view of an [`Entry`].
pub struct JsonEntry {
    pub key: Seq<char>,
    pub value: Json,
}

/// The entries of an object, as the contracts see them.
pub type Entries = Seq<JsonEntry>;

/// The biased exponent field of a binary64 bit pattern.
pub open spec fn float_exponent(bits: u64) -> int {
    (bits as int / FRACTION_SPAN as int) % EXPONENT_SPAN as int
}

/// The fraction field of a binary64 bit pattern.
pub open spec fn float_fraction(bits: u64) -> int {
    bits as int % FRACTION_SPAN as int
}

/// Whether the bit pattern encodes a NaN.
pub open spec fn float_is_nan(bits: u64) -> bool {
    float_exponent(bits) == EXPONENT_SPAN - 1 && float_fraction(bits) != 0
}

/// Whether the bit pattern encodes positive or negative zero.
pub open spec fn float_is_zero(bits: u64) -> bool {
    bits as int % SIGN_SPAN as int == 0
}

/// IEEE 754 equality of two binary64 values given by their bit patterns: a NaN
/// equals nothing, the two zeros equal each other, and any other value equals
/// only its own bit pattern.
pub open spec fn float_equal(a: u64, b: u64) -> bool {
    &&& !float_is_nan(a)
    &&& !float_is_nan(b)
    &&& (a == b || (float_is_zero(a) && float_is_zero(b)))
}

/// Equality of JSON numbers: the same representation and the same value. An
/// integer never equals a float.
pub open spec fn number_equal(a: Number, b: Number) -> bool {
    match (a, b) {
        (Number::PosInt(x), Number::PosInt(y)) => x == y,
        (Number::NegInt(x), Number::NegInt(y)) => x == y,
        (Number::Float(x), Number::Float(y)) => float_equal(x, y),
        _ => false,
    }
}

/// The index of the first entry at or after `from` whose key is `key`, or the
/// number of entries when there is none.
pub open spec fn position_from(entries: Entries, key: Seq<char>, from: int) -> int
    decreases entries.len() - from,
{
    if from < 0 || from >= entries.len() {
        entries.len() as int
    } else if entries[from].key == key {
        from
    } else {
        position_from(entries, key, from + 1)
    }
}

/// The index of the first entry whose key is `key`, or the number of entries
/// when there is none.
pub open spec fn position(entries: Entries, key: Seq<char>) -> int {
    position_from(entries, key, 0)
}

/// The value that `key` is bound to in `entries`.
pub open spec fn lookup(entries: Entries, key: Seq<char>) -> Option<Json> {
    let p = position(entries, key);
    if p < entries.len() {
        Some(entries[p].value)
    } else {
        None
    }
}

/// Indexing a value by an object key: the bound value where `context` is an
/// object that binds `key`, and `Null` in every other case.
pub open spec fn index(context: Json, key: Seq<char>) -> Json {
    match context {
        Json::Object(entries) => match lookup(entries, key) {
            Some(v) => v,
            None => Json::Null,
        },
        _ => Json::Null,
    }
}

/// Structural equality of JSON values. Arrays are equal element by element;
/// objects are equal when they bind the same keys, each to equal values,
/// whatever the order of their entries.
pub open spec fn json_equal(a: Json, b: Json) -> bool
    decreases a,
{
    match (a, b) {
        (Json::Null, Json::Null) => true,
        (Json::Bool(x), Json::Bool(y)) => x == y,
        (Json::Number(x), Json::Number(y)) => number_equal(x, y),
        (Json::String(x), Json::String(y)) => x == y,
        (Json::Array(x), Json::Array(y)) => {
            &&& x.len() == y.len()
            &&& forall|i: int| 0 <= i < x.len() ==> json_equal(#[trigger] x[i], y[i])
        },
        (Json::Object(x), Json::Object(y)) => {
            &&& forall|i: int|
                0 <= i < x.len() ==> {
                    let j = position(y, (#[trigger] x[i]).key);
                    &&& j < y.len()
                    &&& position(x, x[i].key) == i ==> json_equal(x[i].value, y[j].value)
                }
            &&& forall|j: int| 0 <= j < y.len() ==> position(x, (#[trigger] y[j]).key) < x.len()
        },
        _ => false,
    }
}

/// The view of the items of an array.
pub open spec fn items_view(items: Seq<Value>) -> Seq<Json>
    decreases items,
{
    Seq::new(
        items.len(),
        |i: int|
            if 0 <= i < items.len() {
                items[i].view()
            } else {
                Json::Null
            },
    )
}

/// The view of the entries of an object.
pub open spec fn entries_view(entries: Seq<Entry>) -> Entries
    decreases entries,
{
    Seq::new(
        entries.len(),
        |i: int|
            if 0 <= i < entries.len() {
                JsonEntry { key: entries[i].key@, value: entries[i].value.view() }
            } else {
                JsonEntry { key: Seq::empty(), value: Json::Null }
            },
    )
}

impl View for Value {
    type V = Json;

    open spec fn view(&self) -> Json
        decreases self,
    {
        match self {
            Value::Null => Json::Null,
            Value::Bool(b) => Json::Bool(*b),
            Value::Number(n) => Json::Number(*n),
            Value::String(s) => Json::String(s@),
            Value::Array(items) => Json::Array(items_view(items@)),
            Value::Object(entries) => Json::Object(entries_view(entries@)),
        }
    }
}

/// What `position_from` returns is the least matching index from `from` on.
pub proof fn lemma_position_from(entries: Entries, key: Seq<char>, from: int)
    requires
        0 <= from <= entries.len(),
    ensures
        from <= position_from(entries, key, from) <= entries.len(),
        position_from(entries, key, from) < entries.len() ==> entries[position_from(
            entries,
            key,
            from,
        )].key == key,
        forall|k: int| from <= k < position_from(entries, key, from) ==> entries[k].key != key,
    decreases entries.len() - from,
{
    if from < entries.len() && entries[from].key != key {
        lemma_position_from(entries, key, from + 1);
    }
}

/// Whether no float inside the value is a NaN.
pub open spec fn nan_free(value: Json) -> bool
    decreases value,
{
    match value {
        Json::Number(Number::Float(bits)) => !float_is_nan(bits),
        Json::Array(items) => forall|i: int| 0 <= i < items.len() ==> nan_free(#[trigger] items[i]),
        Json::Object(entries) => forall|i: int|
            0 <= i < entries.len() ==> nan_free((#[trigger] entries[i]).value),
        _ => true,
    }
}

/// Equal values are equal the other way round.
pub proof fn lemma_equal_flips(a: Json, b: Json)
    requires
        json_equal(a, b),
    ensures
        json_equal(b, a),
    decreases a,
{
    match (a, b) {
        (Json::Array(x), Json::Array(y)) => {
            assert forall|i: int| 0 <= i < y.len() implies json_equal(#[trigger] y[i], x[i]) by {
                assert(json_equal(x[i], y[i]));
                lemma_equal_flips(x[i], y[i]);
            }
        },
        (Json::Object(x), Json::Object(y)) => {
            assert forall|j: int| 0 <= j < y.len() implies ({
                let i = position(x, (#[trigger] y[j]).key);
                &&& i < x.len()
                &&& position(y, y[j].key) == j ==> json_equal(y[j].value, x[i].value)
            }) by {
                let key = y[j].key;
                let i = position(x, key);
                lemma_position_from(x, key, 0);
                if position(y, key) == j {
                    assert(x[i].key == key);
                    assert(position(x, x[i].key) == i);
                    assert(json_equal(x[i].value, y[j].value));
                    lemma_equal_flips(x[i].value, y[j].value);
                }
            }
            assert forall|i: int| 0 <= i < x.len() implies position(y, (#[trigger] x[i]).key)
                < y.len() by {}
        },
        _ => {},
    }
}

/// Equality does not depend on the side a value stands on.
pub proof fn lemma_equal_symmetric(a: Json, b: Json)
    ensures
        json_equal(a, b) == json_equal(b, a),
{
    if json_equal(a, b) {
        lemma_equal_flips(a, b);
    }
    if json_equal(b, a) {
        lemma_equal_flips(b, a);
    }
}

/// Values equal to one value are equal to each other.
pub proof fn lemma_equal_transitive(a: Json, b: Json, c: Json)
    requires
        json_equal(a, b),
        json_equal(b, c),
    ensures
        json_equal(a, c),
    decreases a,
{
    match (a, b, c) {
        (Json::Array(x), Json::Array(y), Json::Array(z)) => {
            assert forall|i: int| 0 <= i < x.len() implies json_equal(#[trigger] x[i], z[i]) by {
                assert(json_equal(x[i], y[i]));
                assert(json_equal(y[i], z[i]));
                lemma_equal_transitive(x[i], y[i], z[i]);
            }
        },
        (Json::Object(x), Json::Object(y), Json::Object(z)) => {
            assert forall|i: int| 0 <= i < x.len() implies ({
                let k = position(z, (#[trigger] x[i]).key);
                &&& k < z.len()
                &&& position(x, x[i].key) == i ==> json_equal(x[i].value, z[k].value)
            }) by {
                let key = x[i].key;
                let j = position(y, key);
                let k = position(z, key);
                lemma_position_from(y, key, 0);
                assert(y[j].key == key);
                assert(position(z, y[j].key) < z.len());
                if position(x, key) == i {
                    assert(json_equal(x[i].value, y[j].value));
                    assert(position(y, y[j].key) == j);
                    assert(json_equal(y[j].value, z[k].value));
                    lemma_equal_transitive(x[i].value, y[j].value, z[k].value);
                }
            }
            assert forall|k: int| 0 <= k < z.len() implies position(x, (#[trigger] z[k]).key)
                < x.len() by {
                let key = z[k].key;
                let j = position(y, key);
                lemma_position_from(y, key, 0);
                assert(y[j].key == key);
                assert(position(x, y[j].key) < x.len());
            }
        },
        _ => {},
    }
}

/// Equal values give equal values when they are indexed by one key.
pub proof fn lemma_equal_index(a: Json, b: Json, key: Seq<char>)
    requires
        json_equal(a, b),
    ensures
        json_equal(index(a, key), index(b, key)),
{
    match (a, b) {
        (Json::Object(x), Json::Object(y)) => {
            let i = position(x, key);
            let j = position(y, key);
            lemma_position_from(x, key, 0);
            lemma_position_from(y, key, 0);
            if i < x.len() {
                assert(x[i].key == key);
                assert(position(x, x[i].key) == i);
            } else if j < y.len() {
                assert(y[j].key == key);
                assert(position(x, y[j].key) < x.len());
            }
        },
        _ => {},
    }
}

/// A value without a NaN equals itself.
pub proof fn lemma_equal_reflexive(a: Json)
    requires
        nan_free(a),
    ensures
        json_equal(a, a),
    decreases a,
{
    match a {
        Json::Array(items) => {
            assert forall|i: int| 0 <= i < items.len() implies json_equal(
                #[trigger] items[i],
                items[i],
            ) by {
                lemma_equal_reflexive(items[i]);
            }
        },
        Json::Object(entries) => {
            assert forall|i: int| 0 <= i < entries.len() implies ({
                let j = position(entries, (#[trigger] entries[i]).key);
                &&& j < entries.len()
                &&& position(entries, entries[i].key) == i ==> json_equal(
                    entries[i].value,
                    entries[j].value,
                )
            }) by {
                lemma_position_from(entries, entries[i].key, 0);
                lemma_equal_reflexive(entries[i].value);
            }
        },
        _ => {},
    }
}

impl Number {
    /// Whether two numbers are equal.
    pub fn equals(&self, other: &Number) -> (r: bool)
        ensures
            r == number_equal(*self, *other),
    {
        match (*self, *other) {
            (Number::PosInt(x), Number::PosInt(y)) => x == y,
            (Number::NegInt(x), Number::NegInt(y)) => x == y,
            (Number::Float(x), Number::Float(y)) => {
                let x_nan = (x / FRACTION_SPAN) % EXPONENT_SPAN == EXPONENT_SPAN - 1 && x
                    % FRACTION_SPAN != 0;
                let y_nan = (y / FRACTION_SPAN) % EXPONENT_SPAN == EXPONENT_SPAN - 1 && y
                    % FRACTION_SPAN != 0;
                !x_nan && !y_nan && (x == y || (x % SIGN_SPAN == 0 && y % SIGN_SPAN == 0))
            },
            _ => false,
        }
    }
}

/// The index of the first entry whose key is `key`, or the number of entries.
pub fn find(entries: &Vec<Entry>, key: &String) -> (r: usize)
    ensures
        r == position(entries_view(entries@), key@),
        r <= entries.len(),
{
    let mut i: usize = 0;
    while i < entries.len()
        invariant
            i <= entries.len(),
            position(entries_view(entries@), key@) == position_from(
                entries_view(entries@),
                key@,
                i as int,
            ),
        decreases entries.len() - i,
    {
        if entries[i].key == *key {
            return i;
        }
        i = i + 1;
    }
    i
}

impl Value {
    /// Whether the value is `Null`.
    pub fn is_null(&self) -> (r: bool)
        ensures
            r == (self@ is Null),
    {
        match self {
            Value::Null => true,
            _ => false,
        }
    }

    /// Indexes the value by an object key. A missing key, or a value that is
    /// no object, gives `Null`.
    pub fn index(&self, key: &String) -> (r: Value)
        ensures
            r@ == index(self@, key@),
    {
        match self {
            Value::Object(entries) => {
                let p = find(entries, key);
                if p < entries.len() {
                    entries[p].value.clone()
                } else {
                    Value::Null
                }
            },
            _ => Value::Null,
        }
    }

    /// Structural equality.
    pub fn equals(&self, other: &Value) -> (r: bool)
        ensures
            r == json_equal(self@, other@),
        decreases self,
    {
        match (self, other) {
            (Value::Null, Value::Null) => true,
            (Value::Bool(x), Value::Bool(y)) => *x == *y,
            (Value::Number(x), Value::Number(y)) => x.equals(y),
            (Value::String(x), Value::String(y)) => *x == *y,
            (Value::Array(x), Value::Array(y)) => {
                let ghost xs = items_view(x@);
                let ghost ys = items_view(y@);
                if x.len() != y.len() {
                    assert(xs.len() != ys.len());
                    return false;
                }
                let mut i: usize = 0;
                while i < x.len()
                    invariant
                        i <= x.len(),
                        x.len() == y.len(),
                        self is Array && self->Array_0 == *x,
                        xs == items_view(x@),
                        ys == items_view(y@),
                        self@ == Json::Array(xs),
                        other@ == Json::Array(ys),
                        forall|k: int| 0 <= k < i ==> json_equal(#[trigger] xs[k], ys[k]),
                    decreases x.len() - i,
                {
                    if !x[i].equals(&y[i]) {
                        assert(!json_equal(xs[i as int], ys[i as int]));
                        return false;
                    }
                    i = i + 1;
                }
                true
            },
            (Value::Object(x), Value::Object(y)) => {
                let ghost xs = entries_view(x@);
                let ghost ys = entries_view(y@);
                let mut i: usize = 0;
                while i < x.len()
                    invariant
                        i <= x.len(),
                        self is Object && self->Object_0 == *x,
                        xs == entries_view(x@),
                        ys == entries_view(y@),
                        self@ == Json::Object(xs),
                        other@ == Json::Object(ys),
                        forall|k: int|
                            0 <= k < i ==> {
                                let j = position(ys, (#[trigger] xs[k]).key);
                                &&& j < ys.len()
                                &&& position(xs, xs[k].key) == k ==> json_equal(
                                    xs[k].value,
                                    ys[j].value,
                                )
                            },
                    decreases x.len() - i,
                {
                    let j = find(y, &x[i].key);
                    if j >= y.len() {
                        assert(!(position(ys, xs[i as int].key) < ys.len()));
                        return false;
                    }
                    if find(x, &x[i].key) == i {
                        if !x[i].value.equals(&y[j].value) {
                            assert(!json_equal(
                                xs[i as int].value,
                                ys[position(ys, xs[i as int].key)].value,
                            ));
                            return false;
                        }
                    }
                    assert(xs[i as int].key == x@[i as int].key@);
                    i = i + 1;
                }
                let mut j: usize = 0;
                while j < y.len()
                    invariant
                        j <= y.len(),
                        xs == entries_view(x@),
                        ys == entries_view(y@),
                        self@ == Json::Object(xs),
                        other@ == Json::Object(ys),
                        forall|k: int|
                            0 <= k < j ==> position(xs, (#[trigger] ys[k]).key) < xs.len(),
                    decreases y.len() - j,
                {
                    if find(x, &y[j].key) >= x.len() {
                        assert(!(position(xs, ys[j as int].key) < xs.len()));
                        return false;
                    }
                    assert(ys[j as int].key == y@[j as int].key@);
                    j = j + 1;
                }
                true
            },
            _ => false,
        }
    }
}

impl Clone for Value {
    /// A deep copy.
    fn clone(&self) -> (r: Value)
        ensures
            r@ == self@,
        decreases self,
    {
        match self {
            Value::Null => Value::Null,
            Value::Bool(b) => Value::Bool(*b),
            Value::Number(n) => Value::Number(*n),
            Value::String(s) => Value::String(s.clone()),
            Value::Array(items) => {
                let mut out: Vec<Value> = Vec::new();
                let mut i: usize = 0;
                while i < items.len()
                    invariant
                        i <= items.len(),
                        out@.len() == i,
                        self is Array && self->Array_0 == *items,
                        forall|k: int| 0 <= k < i ==> out@[k]@ == items@[k]@,
                    decreases items.len() - i,
                {
                    let c = items[i].clone();
                    out.push(c);
                    i = i + 1;
                }
                assert(items_view(out@) =~= items_view(items@));
                Value::Array(out)
            },
            Value::Object(entries) => {
                let mut out: Vec<Entry> = Vec::new();
                let mut i: usize = 0;
                while i < entries.len()
                    invariant
                        i <= entries.len(),
                        out@.len() == i,
                        self is Object && self->Object_0 == *entries,
                        forall|k: int|
                            0 <= k < i ==> out@[k].key@ == entries@[k].key@ && out@[k].value@
                                == entries@[k].value@,
                    decreases entries.len() - i,
                {
                    let c = entries[i].value.clone();
                    out.push(Entry { key: entries[i].key.clone(), value: c });
                    i = i + 1;
                }
                assert(entries_view(out@) =~= entries_view(entries@));
                Value::Object(out)
            },
        }
    }
}

impl PartialEq for Number {
    fn eq(&self, other: &Number) -> (r: bool) {
        self.equals(other)
    }
}

impl vstd::std_specs::cmp::PartialEqSpecImpl for Number {
    open spec fn obeys_eq_spec() -> bool {
        true
    }

    open spec fn eq_spec(&self, other: &Number) -> bool {
        number_equal(*self, *other)
    }
}

impl PartialEq for Value {
    fn eq(&self, other: &Value) -> (r: bool) {
        self.equals(other)
    }
}

impl vstd::std_specs::cmp::PartialEqSpecImpl for Value {
    open spec fn obeys_eq_spec() -> bool {
        true
    }

    open spec fn eq_spec(&self, other: &Value) -> bool {
        json_equal(self@, other@)
    }
}

} // verus!
