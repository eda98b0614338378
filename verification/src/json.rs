//! JSON instance values, held as plain data.
//!
//! Numbers keep the three shapes a JSON parser produces: non-negative
//! integers, negative integers, and other numbers as the bit pattern of their
//! IEEE-754 double. Producers keep them canonical (see `number_wf`), so two
//! numbers are equal exactly when their representations are.

use vstd::prelude::*;

verus! {

pub const JSON_TYPE_NULL: u8 = 1;
pub const JSON_TYPE_BOOL: u8 = 2;
pub const JSON_TYPE_NUMBER: u8 = 4;
pub const JSON_TYPE_STRING: u8 = 8;
pub const JSON_TYPE_ARRAY: u8 = 16;
pub const JSON_TYPE_OBJECT: u8 = 32;
pub const JSON_TYPE_ALL: u8 = 63;

/// A JSON number.
#[derive(Clone, Copy, Debug, PartialEq, Eq, Structural)]
pub enum JsonNumber {
    /// An integer in `0..=u64::MAX`.
    PosInt(u64),
    /// A negative integer in `i64::MIN..0`.
    NegInt(i64),
    /// Any other finite number, as the bits of an `f64`.
    Float(u64),
}

/// A JSON value. Object members keep document order; names are unique.
#[derive(Debug)]
pub enum JsonValue {
    Null,
    Bool(bool),
    Number(JsonNumber),
    String(String),
    Array(Vec<JsonValue>),
    Object(Vec<(String, JsonValue)>),
}

/// The exponent field of an `f64` bit pattern.
pub open spec fn float_exponent_field(bits: u64) -> int {
    ((bits as int) / 0x10_0000_0000_0000) % 0x800
}

/// The fraction field of an `f64` bit pattern.
pub open spec fn float_fraction_field(bits: u64) -> int {
    (bits as int) % 0x10_0000_0000_0000
}

/// Whether the sign bit of an `f64` bit pattern is set.
pub open spec fn float_negative(bits: u64) -> bool {
    (bits as int) >= 0x8000_0000_0000_0000
}

/// The exact value of a finite `f64` bit pattern as a fraction `(num, den)`
/// with `den > 0`.
pub open spec fn float_rational(bits: u64) -> (int, int) {
    let e = float_exponent_field(bits);
    let f = float_fraction_field(bits);
    let mantissa: int = if e == 0 { f } else { f + 0x10_0000_0000_0000 };
    let exp: int = if e == 0 { -1074 } else { e - 1075 };
    let signed: int = if float_negative(bits) { -mantissa } else { mantissa };
    if exp >= 0 {
        (signed * vstd::arithmetic::power2::pow2(exp as nat), 1)
    } else {
        (signed, vstd::arithmetic::power2::pow2((-exp) as nat) as int)
    }
}

/// The exact value of a JSON number as a fraction `(num, den)`, `den > 0`.
pub open spec fn number_rational(n: JsonNumber) -> (int, int) {
    match n {
        JsonNumber::PosInt(u) => (u as int, 1),
        JsonNumber::NegInt(i) => (i as int, 1),
        JsonNumber::Float(bits) => float_rational(bits),
    }
}

/// Whether the number has no fractional part.
pub open spec fn number_is_integral(n: JsonNumber) -> bool {
    let (num, den) = number_rational(n);
    num % den == 0
}

/// The canonical-representation rule: negative integers use `NegInt`, and a
/// `Float` is finite and not an integer that `PosInt`/`NegInt` could hold.
pub open spec fn number_wf(n: JsonNumber) -> bool {
    match n {
        JsonNumber::PosInt(_) => true,
        JsonNumber::NegInt(i) => i < 0,
        JsonNumber::Float(bits) => float_exponent_field(bits) != 0x7ff && !(number_is_integral(n)
            && i64::MIN <= number_rational(n).0 / number_rational(n).1 <= u64::MAX),
    }
}

/// Whether a member list names `key`.
pub open spec fn members_have_key(members: Seq<(String, JsonValue)>, key: Seq<char>) -> bool {
    exists|i: int| 0 <= i < members.len() && (#[trigger] members[i]).0@ == key
}

/// Well-formed values: canonical numbers and unique member names, throughout.
pub open spec fn json_wf(v: JsonValue) -> bool
    decreases v,
{
    match v {
        JsonValue::Number(n) => number_wf(n),
        JsonValue::Array(items) => forall|i: int| 0 <= i < items@.len() ==> json_wf(#[trigger] items@[i]),
        JsonValue::Object(members) => {
            &&& forall|i: int, j: int| 0 <= i < j < members@.len() ==> (#[trigger] members@[i]).0@ != (#[trigger] members@[j]).0@
            &&& forall|i: int| 0 <= i < members@.len() ==> json_wf((#[trigger] members@[i]).1)
        },
        _ => true,
    }
}

/// JSON equality: arrays elementwise, objects as name-to-value maps.
pub open spec fn json_eq(a: JsonValue, b: JsonValue) -> bool
    decreases a,
{
    match a {
        JsonValue::Null => b is Null,
        JsonValue::Bool(x) => b matches JsonValue::Bool(y) && x == y,
        JsonValue::Number(x) => b matches JsonValue::Number(y) && x == y,
        JsonValue::String(x) => b matches JsonValue::String(y) && x@ == y@,
        JsonValue::Array(xs) => b matches JsonValue::Array(ys) && xs@.len() == ys@.len()
            && forall|i: int| 0 <= i < xs@.len() ==> json_eq(#[trigger] xs@[i], ys@[i]),
        JsonValue::Object(xs) => b matches JsonValue::Object(ys) && xs@.len() == ys@.len()
            && (forall|i: int| 0 <= i < xs@.len() ==> members_have_key(ys@, (#[trigger] xs@[i]).0@))
            && (forall|j: int| 0 <= j < ys@.len() ==> members_have_key(xs@, (#[trigger] ys@[j]).0@))
            && (forall|i: int, j: int| 0 <= i < xs@.len() && 0 <= j < ys@.len()
                && (#[trigger] xs@[i]).0@ == (#[trigger] ys@[j]).0@ ==> json_eq(xs@[i].1, ys@[j].1)),
    }
}

/// The JSON type bit of a value.
pub open spec fn json_type_bit(v: JsonValue) -> u8 {
    match v {
        JsonValue::Null => JSON_TYPE_NULL,
        JsonValue::Bool(_) => JSON_TYPE_BOOL,
        JsonValue::Number(_) => JSON_TYPE_NUMBER,
        JsonValue::String(_) => JSON_TYPE_STRING,
        JsonValue::Array(_) => JSON_TYPE_ARRAY,
        JsonValue::Object(_) => JSON_TYPE_OBJECT,
    }
}

/// Character-wise string equality.
pub fn str_eq(a: &str, b: &str) -> (r: bool)
    ensures
        r == (a@ == b@),
{
    let n = a.unicode_len();
    let m = b.unicode_len();
    if n != m {
        return false;
    }
    let mut i: usize = 0;
    while i < n
        invariant
            n == a@.len(),
            m == b@.len(),
            n == m,
            i <= n,
            a@.take(i as int) == b@.take(i as int),
        decreases n - i,
    {
        if a.get_char(i) != b.get_char(i) {
            assert(a@[i as int] != b@[i as int]);
            return false;
        }
        assert(a@.take(i + 1) =~= a@.take(i as int).push(a@[i as int]));
        assert(b@.take(i + 1) =~= b@.take(i as int).push(b@[i as int]));
        i = i + 1;
    }
    assert(a@.take(n as int) =~= a@);
    assert(b@.take(n as int) =~= b@);
    true
}

impl JsonValue {
    /// The JSON type bit of this value.
    pub fn type_bit(&self) -> (b: u8)
        ensures
            b == json_type_bit(*self),
    {
        match self {
            JsonValue::Null => JSON_TYPE_NULL,
            JsonValue::Bool(_) => JSON_TYPE_BOOL,
            JsonValue::Number(_) => JSON_TYPE_NUMBER,
            JsonValue::String(_) => JSON_TYPE_STRING,
            JsonValue::Array(_) => JSON_TYPE_ARRAY,
            JsonValue::Object(_) => JSON_TYPE_OBJECT,
        }
    }

    /// Whether this is `null`.
    pub fn is_null(&self) -> (r: bool)
        ensures
            r == (*self is Null),
    {
        match self {
            JsonValue::Null => true,
            _ => false,
        }
    }

    /// The string, for a string value.
    pub fn as_str(&self) -> (r: Option<&str>)
        ensures
            match *self {
                JsonValue::String(s) => r matches Some(t) && t@ == s@,
                _ => r is None,
            },
    {
        match self {
            JsonValue::String(s) => Some(s.as_str()),
            _ => None,
        }
    }

    /// The items, for an array value.
    pub fn as_array(&self) -> (r: Option<&Vec<JsonValue>>)
        ensures
            match *self {
                JsonValue::Array(items) => r == Some(&items),
                _ => r is None,
            },
    {
        match self {
            JsonValue::Array(items) => Some(items),
            _ => None,
        }
    }

    /// The members, for an object value.
    pub fn as_object(&self) -> (r: Option<&Vec<(String, JsonValue)>>)
        ensures
            match *self {
                JsonValue::Object(members) => r == Some(&members),
                _ => r is None,
            },
    {
        match self {
            JsonValue::Object(members) => Some(members),
            _ => None,
        }
    }
}

/// Whether an object's member list names `key`.
pub fn object_contains_key(members: &Vec<(String, JsonValue)>, key: &str) -> (r: bool)
    ensures
        r == members_have_key(members@, key@),
{
    let mut i: usize = 0;
    while i < members.len()
        invariant
            i <= members@.len(),
            forall|k: int| 0 <= k < i ==> (#[trigger] members@[k]).0@ != key@,
        decreases members@.len() - i,
    {
        if str_eq(members[i].0.as_str(), key) {
            assert(members@[i as int].0@ == key@);
            return true;
        }
        i = i + 1;
    }
    false
}

/// JSON equality of two values (see `json_eq`).
pub fn json_values_equal(a: &JsonValue, b: &JsonValue) -> (r: bool)
    ensures
        r == json_eq(*a, *b),
    decreases *a,
{
    match a {
        JsonValue::Null => match b {
            JsonValue::Null => true,
            _ => false,
        },
        JsonValue::Bool(x) => match b {
            JsonValue::Bool(y) => *x == *y,
            _ => false,
        },
        JsonValue::Number(x) => match b {
            JsonValue::Number(y) => *x == *y,
            _ => false,
        },
        JsonValue::String(x) => match b {
            JsonValue::String(y) => str_eq(x.as_str(), y.as_str()),
            _ => false,
        },
        JsonValue::Array(xs) => match b {
            JsonValue::Array(ys) => {
                if xs.len() != ys.len() {
                    return false;
                }
                let mut i: usize = 0;
                while i < xs.len()
                    invariant
                        i <= xs@.len(),
                        xs@.len() == ys@.len(),
                        *a == JsonValue::Array(*xs),
                        *b == JsonValue::Array(*ys),
                        forall|k: int| 0 <= k < i ==> json_eq(#[trigger] xs@[k], ys@[k]),
                    decreases xs@.len() - i,
                {
                    proof {
                        assert(decreases_to!(*a => (*a)->Array_0));
                        assert(decreases_to!(*xs => xs[i as int]));
                    }
                    if !json_values_equal(&xs[i], &ys[i]) {
                        return false;
                    }
                    i = i + 1;
                }
                true
            },
            _ => false,
        },
        JsonValue::Object(xs) => match b {
            JsonValue::Object(ys) => {
                if xs.len() != ys.len() {
                    return false;
                }
                let mut i: usize = 0;
                while i < xs.len()
                    invariant
                        i <= xs@.len(),
                        xs@.len() == ys@.len(),
                        *a == JsonValue::Object(*xs),
                        *b == JsonValue::Object(*ys),
                        forall|k: int| 0 <= k < i ==> members_have_key(ys@, (#[trigger] xs@[k]).0@),
                        forall|k: int, l: int| 0 <= k < i && 0 <= l < ys@.len()
                            && (#[trigger] xs@[k]).0@ == (#[trigger] ys@[l]).0@ ==> json_eq(xs@[k].1, ys@[l].1),
                    decreases xs@.len() - i,
                {
                    let mut found = false;
                    let mut j: usize = 0;
                    while j < ys.len()
                        invariant
                            i < xs@.len(),
                            j <= ys@.len(),
                            xs@.len() == ys@.len(),
                            *a == JsonValue::Object(*xs),
                            *b == JsonValue::Object(*ys),
                            forall|k: int| 0 <= k < i ==> members_have_key(ys@, (#[trigger] xs@[k]).0@),
                            forall|k: int, l: int| 0 <= k < i && 0 <= l < ys@.len()
                                && (#[trigger] xs@[k]).0@ == (#[trigger] ys@[l]).0@ ==> json_eq(xs@[k].1, ys@[l].1),
                            found ==> members_have_key(ys@, xs@[i as int].0@),
                            !found ==> forall|l: int| 0 <= l < j ==> (#[trigger] ys@[l]).0@ != xs@[i as int].0@,
                            forall|l: int| 0 <= l < j && (#[trigger] ys@[l]).0@ == xs@[i as int].0@
                                ==> json_eq(xs@[i as int].1, ys@[l].1),
                        decreases ys@.len() - j,
                    {
                        if str_eq(xs[i].0.as_str(), ys[j].0.as_str()) {
                            proof {
                                assert(decreases_to!(*a => (*a)->Object_0));
                                assert(decreases_to!(*xs => xs[i as int]));
                                assert(decreases_to!(xs[i as int] => xs[i as int].1));
                            }
                            if !json_values_equal(&xs[i].1, &ys[j].1) {
                                assert(!json_eq(*a, *b));
                                return false;
                            }
                            found = true;
                        }
                        j = j + 1;
                    }
                    if !found {
                        assert(!members_have_key(ys@, xs@[i as int].0@));
                        assert(!json_eq(*a, *b));
                        return false;
                    }
                    i = i + 1;
                }
                let mut j: usize = 0;
                while j < ys.len()
                    invariant
                        j <= ys@.len(),
                        xs@.len() == ys@.len(),
                        *a == JsonValue::Object(*xs),
                        *b == JsonValue::Object(*ys),
                        forall|k: int| 0 <= k < xs@.len() ==> members_have_key(ys@, (#[trigger] xs@[k]).0@),
                        forall|k: int, l: int| 0 <= k < xs@.len() && 0 <= l < ys@.len()
                            && (#[trigger] xs@[k]).0@ == (#[trigger] ys@[l]).0@ ==> json_eq(xs@[k].1, ys@[l].1),
                        forall|l: int| 0 <= l < j ==> members_have_key(xs@, (#[trigger] ys@[l]).0@),
                    decreases ys@.len() - j,
                {
                    if !object_contains_key(xs, ys[j].0.as_str()) {
                        assert(!json_eq(*a, *b));
                        return false;
                    }
                    j = j + 1;
                }
                true
            },
            _ => false,
        },
    }
}

/// Law: JSON equality is reflexive on well-formed values.
pub proof fn lemma_json_eq_reflexive(a: JsonValue)
    requires
        json_wf(a),
    ensures
        json_eq(a, a),
    decreases a,
{
    match a {
        JsonValue::Array(xs) => {
            assert forall|i: int| 0 <= i < xs@.len() implies json_eq(#[trigger] xs@[i], xs@[i]) by {
                lemma_json_eq_reflexive(xs@[i]);
            }
        },
        JsonValue::Object(xs) => {
            assert forall|i: int| 0 <= i < xs@.len() implies members_have_key(xs@, (#[trigger] xs@[i]).0@) by {
                assert(xs@[i].0@ == xs@[i].0@);
            }
            assert forall|i: int, j: int| 0 <= i < xs@.len() && 0 <= j < xs@.len()
                && (#[trigger] xs@[i]).0@ == (#[trigger] xs@[j]).0@ implies json_eq(xs@[i].1, xs@[j].1) by {
                if i != j {
                    if i < j {
                        assert(xs@[i].0@ != xs@[j].0@);
                    } else {
                        assert(xs@[j].0@ != xs@[i].0@);
                    }
                }
                lemma_json_eq_reflexive(xs@[i].1);
            }
        },
        _ => {},
    }
}

/// Law: JSON equality is symmetric.
pub proof fn lemma_json_eq_symmetric(a: JsonValue, b: JsonValue)
    requires
        json_eq(a, b),
    ensures
        json_eq(b, a),
    decreases a,
{
    match a {
        JsonValue::Array(xs) => {
            let ys = b->Array_0;
            assert forall|i: int| 0 <= i < ys@.len() implies json_eq(#[trigger] ys@[i], xs@[i]) by {
                lemma_json_eq_symmetric(xs@[i], ys@[i]);
            }
        },
        JsonValue::Object(xs) => {
            let ys = b->Object_0;
            assert forall|j: int, i: int| 0 <= j < ys@.len() && 0 <= i < xs@.len()
                && (#[trigger] ys@[j]).0@ == (#[trigger] xs@[i]).0@ implies json_eq(ys@[j].1, xs@[i].1) by {
                lemma_json_eq_symmetric(xs@[i].1, ys@[j].1);
            }
        },
        _ => {},
    }
}

/// Law: JSON equality is transitive.
pub proof fn lemma_json_eq_transitive(a: JsonValue, b: JsonValue, c: JsonValue)
    requires
        json_eq(a, b),
        json_eq(b, c),
    ensures
        json_eq(a, c),
    decreases a,
{
    match a {
        JsonValue::Array(xs) => {
            let ys = b->Array_0;
            let zs = c->Array_0;
            assert forall|i: int| 0 <= i < xs@.len() implies json_eq(#[trigger] xs@[i], zs@[i]) by {
                lemma_json_eq_transitive(xs@[i], ys@[i], zs@[i]);
            }
        },
        JsonValue::Object(xs) => {
            let ys = b->Object_0;
            let zs = c->Object_0;
            assert forall|i: int| 0 <= i < xs@.len() implies members_have_key(zs@, (#[trigger] xs@[i]).0@) by {
                assert(members_have_key(ys@, xs@[i].0@));
                let j = choose|j: int| 0 <= j < ys@.len() && (#[trigger] ys@[j]).0@ == xs@[i].0@;
                assert(members_have_key(zs@, ys@[j].0@));
            }
            assert forall|l: int| 0 <= l < zs@.len() implies members_have_key(xs@, (#[trigger] zs@[l]).0@) by {
                assert(members_have_key(ys@, zs@[l].0@));
                let j = choose|j: int| 0 <= j < ys@.len() && (#[trigger] ys@[j]).0@ == zs@[l].0@;
                assert(members_have_key(xs@, ys@[j].0@));
            }
            assert forall|i: int, l: int| 0 <= i < xs@.len() && 0 <= l < zs@.len()
                && (#[trigger] xs@[i]).0@ == (#[trigger] zs@[l]).0@ implies json_eq(xs@[i].1, zs@[l].1) by {
                assert(members_have_key(ys@, xs@[i].0@));
                let j = choose|j: int| 0 <= j < ys@.len() && (#[trigger] ys@[j]).0@ == xs@[i].0@;
                assert(json_eq(xs@[i].1, ys@[j].1));
                assert(json_eq(ys@[j].1, zs@[l].1));
                lemma_json_eq_transitive(xs@[i].1, ys@[j].1, zs@[l].1);
            }
        },
        _ => {},
    }
}

} // verus!
