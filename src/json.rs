//! A JSON tree that the decoder can reason about, read by the `json` crate.
use crate::decimal::{
    decimal_units, exact_shrink, integer_value, lemma_pow10_pos, lemma_pow10_split, parse_integer,
    parse_units, pow10, units_of_value, MAX_UNITS,
};
use crate::error::{Field, PoloError};
use vstd::prelude::*;

verus! {

/// A JSON number as sign, decimal mantissa and decimal exponent:
/// `(-1)^(!positive) * mantissa * 10^exponent`.
#[derive(Clone, Copy, Debug, PartialEq, Eq, Structural)]
pub struct JsonNumber {
    pub positive: bool,
    pub mantissa: u64,
    pub exponent: i16,
}

#[derive(Debug)]
pub enum Json {
    Null,
    Boolean(bool),
    Number(JsonNumber),
    Text(String),
    Array(Vec<Json>),
    Object(Vec<(String, Json)>),
}

#[verifier::external_type_specification]
#[verifier::external_body]
pub struct ExJsonValue(json::JsonValue);

/// The tree that the `json` crate reads from a text, if it is JSON.
pub uninterp spec fn json_tree(text: Seq<char>) -> Option<Json>;

/// Relies on `json::parse`: a tree for JSON text, an error otherwise; the
/// outcome depends on the text alone.
#[verifier::external_body]
fn read_json(text: &str) -> (r: Result<Json, json::Error>)
    ensures
        match r {
            Ok(j) => json_tree(text@) == Some(j),
            Err(_) => json_tree(text@) is None,
        },
{
    json::parse(text).map(|v| tree_of(&v))
}

/// The conversion half of `read_json`: copies a `json::JsonValue` into a
/// `Json`, node for node (`Number::as_parts` gives the number's parts).
#[verifier::external_body]
fn tree_of(v: &json::JsonValue) -> Json {
    match v {
        json::JsonValue::Null => Json::Null,
        json::JsonValue::Boolean(b) => Json::Boolean(*b),
        json::JsonValue::Number(n) => {
            let (positive, mantissa, exponent) = n.as_parts();
            Json::Number(JsonNumber { positive, mantissa, exponent })
        },
        json::JsonValue::Short(s) => Json::Text(s.as_str().to_string()),
        json::JsonValue::String(s) => Json::Text(s.clone()),
        json::JsonValue::Array(a) => Json::Array(a.iter().map(tree_of).collect()),
        json::JsonValue::Object(o) => Json::Object(o.iter().map(|(k, x)| (k.to_string(), tree_of(x))).collect()),
    }
}

/// Parses a text as JSON.
pub fn parse(text: &str) -> (r: Result<Json, PoloError>)
    ensures
        match r {
            Ok(j) => json_tree(text@) == Some(j),
            Err(e) => json_tree(text@) is None && e is Json,
        },
{
    match read_json(text) {
        Ok(j) => Ok(j),
        Err(e) => Err(PoloError::Json(e)),
    }
}

/// The units (10^-8) that a JSON number denotes, if it is a non-negative
/// multiple of 10^-8 no larger than `MAX_UNITS`.
pub open spec fn number_units(n: JsonNumber) -> Option<nat> {
    if n.mantissa == 0 {
        Some(0)
    } else if !n.positive {
        None
    } else {
        units_of_value(n.mantissa as nat, n.exponent + 8)
    }
}

/// The unsigned integer that a JSON number denotes, if it has no exponent.
pub open spec fn number_integer(n: JsonNumber) -> Option<nat> {
    if n.positive && n.exponent == 0 {
        Some(n.mantissa as nat)
    } else {
        None
    }
}

pub fn units_of_number(n: JsonNumber) -> (r: Option<u64>)
    ensures
        r matches Some(v) ==> number_units(n) == Some(v as nat),
        r is None ==> number_units(n) is None,
{
    if n.mantissa == 0 {
        return Some(0);
    }
    if !n.positive {
        return None;
    }
    let e: i32 = n.exponent as i32 + 8;
    assert(e == n.exponent + 8);
    if e >= 0 {
        let mut w: u64 = n.mantissa;
        let mut i: i32 = 0;
        assert(pow10(0) == 1);
        assert(n.mantissa * pow10(0) == n.mantissa);
        while i < e
            invariant
                0 <= i <= e,
                e == n.exponent + 8,
                n.positive,
                n.mantissa != 0,
                w == n.mantissa * pow10(i as nat),
                w <= MAX_UNITS || i == 0,
            decreases e - i,
        {
            if w > MAX_UNITS / 10 {
                proof {
                    lemma_pow10_pos((e - i - 1) as nat);
                    lemma_pow10_split(i as nat, (e - i) as nat);
                    assert((i as nat + (e - i) as nat) == e as nat);
                    assert(n.mantissa * pow10(e as nat) > MAX_UNITS) by (nonlinear_arith)
                        requires
                            w > MAX_UNITS / 10,
                            w == n.mantissa * pow10(i as nat),
                            pow10(e as nat) == pow10(i as nat) * pow10((e - i) as nat),
                            pow10((e - i) as nat) == 10 * pow10((e - i - 1) as nat),
                            pow10((e - i - 1) as nat) >= 1,
                    ;
                    assert(number_units(n) is None);
                }
                return None;
            }
            proof {
                assert(n.mantissa * pow10((i + 1) as nat) == n.mantissa * pow10(i as nat) * 10)
                    by (nonlinear_arith)
                    requires
                        pow10((i + 1) as nat) == 10 * pow10(i as nat),
                ;
            }
            w = w * 10;
            i = i + 1;
        }
        if w > MAX_UNITS {
            return None;
        }
        Some(w)
    } else {
        let mut m: u64 = n.mantissa;
        let mut k: i32 = -e;
        while k > 0
            invariant
                0 <= k <= -e,
                e == n.exponent + 8,
                e < 0,
                n.positive,
                n.mantissa != 0,
                exact_shrink(m as nat, k as nat) == exact_shrink(n.mantissa as nat, (-e) as nat),
            decreases k,
        {
            if m % 10 != 0 {
                assert(exact_shrink(m as nat, k as nat) is None);
                assert(number_units(n) is None);
                return None;
            }
            m = m / 10;
            k = k - 1;
        }
        if m > MAX_UNITS {
            return None;
        }
        Some(m)
    }
}

/// The units that a JSON value denotes: a number, or a decimal text.
pub open spec fn units_spec(j: Json) -> Option<nat> {
    match j {
        Json::Number(n) => number_units(n),
        Json::Text(s) => decimal_units(s@),
        _ => None,
    }
}

/// The unsigned integer that a JSON value denotes: a number, or a text of digits.
pub open spec fn integer_spec(j: Json) -> Option<nat> {
    match j {
        Json::Number(n) => number_integer(n),
        Json::Text(s) => integer_value(s@),
        _ => None,
    }
}

/// Reading a JSON value as a `T`, failing with an error that names the field.
pub trait Expect<T> {
    /// Whether `r` is what reading the value as a `T` gives.
    spec fn reads_as(&self, field: Field, r: Result<T, PoloError>) -> bool;

    fn expect(&self, field: Field) -> (r: Result<T, PoloError>)
        ensures
            self.reads_as(field, r),
    ;
}

impl Expect<u64> for Json {
    open spec fn reads_as(&self, field: Field, r: Result<u64, PoloError>) -> bool {
        match r {
            Ok(v) => integer_spec(*self) == Some(v as nat),
            Err(e) => (integer_spec(*self) is None || integer_spec(*self).unwrap() > u64::MAX) && e
                == PoloError::Number(field),
        }
    }

    fn expect(&self, field: Field) -> (r: Result<u64, PoloError>) {
        self.expect_u64(field)
    }
}

impl Expect<u16> for Json {
    open spec fn reads_as(&self, field: Field, r: Result<u16, PoloError>) -> bool {
        match r {
            Ok(v) => integer_spec(*self) == Some(v as nat),
            Err(e) => (integer_spec(*self) is None || integer_spec(*self).unwrap() > u16::MAX) && e
                == PoloError::Number(field),
        }
    }

    fn expect(&self, field: Field) -> (r: Result<u16, PoloError>) {
        self.expect_u16(field)
    }
}

impl Expect<String> for Json {
    open spec fn reads_as(&self, field: Field, r: Result<String, PoloError>) -> bool {
        match r {
            Ok(s) => *self is Text && s@ == self->Text_0@,
            Err(e) => !(*self is Text) && e == PoloError::Shape(field),
        }
    }

    fn expect(&self, field: Field) -> (r: Result<String, PoloError>) {
        self.expect_text(field)
    }
}

impl Json {
    /// Reads an amount or a rate: a JSON number or a decimal text.
    pub fn expect_units(&self, field: Field) -> (r: Result<u64, PoloError>)
        ensures
            match r {
                Ok(v) => units_spec(*self) == Some(v as nat),
                Err(e) => units_spec(*self) is None && e == PoloError::Number(field),
            },
    {
        let v = match self {
            Json::Number(n) => units_of_number(*n),
            Json::Text(s) => parse_units(s.as_str()),
            _ => None,
        };
        match v {
            Some(v) => Ok(v),
            None => Err(PoloError::Number(field)),
        }
    }

    /// Reads an unsigned integer: a JSON number without exponent, or a text of digits.
    pub fn expect_u64(&self, field: Field) -> (r: Result<u64, PoloError>)
        ensures
            match r {
                Ok(v) => integer_spec(*self) == Some(v as nat),
                Err(e) => (integer_spec(*self) is None || integer_spec(*self).unwrap() > u64::MAX)
                    && e == PoloError::Number(field),
            },
    {
        let v = match self {
            Json::Number(n) => if n.positive && n.exponent == 0 {
                Some(n.mantissa)
            } else {
                None
            },
            Json::Text(s) => parse_integer(s.as_str()),
            _ => None,
        };
        match v {
            Some(v) => Ok(v),
            None => Err(PoloError::Number(field)),
        }
    }

    /// Reads an unsigned integer below 2^16.
    pub fn expect_u16(&self, field: Field) -> (r: Result<u16, PoloError>)
        ensures
            match r {
                Ok(v) => integer_spec(*self) == Some(v as nat),
                Err(e) => (integer_spec(*self) is None || integer_spec(*self).unwrap() > u16::MAX)
                    && e == PoloError::Number(field),
            },
    {
        match self.expect_u64(field) {
            Ok(v) => if v <= u16::MAX as u64 {
                Ok(v as u16)
            } else {
                Err(PoloError::Number(field))
            },
            Err(e) => Err(e),
        }
    }

    /// Reads a text.
    pub fn expect_text(&self, field: Field) -> (r: Result<String, PoloError>)
        ensures
            match r {
                Ok(s) => self is Text && s@ == self->Text_0@,
                Err(e) => !(self is Text) && e == PoloError::Shape(field),
            },
    {
        match self {
            Json::Text(s) => Ok(s.clone()),
            _ => Err(PoloError::Shape(field)),
        }
    }
}

} // verus!

verus! {

/// Whether two texts hold the same characters.
pub fn text_eq(a: &str, b: &str) -> (r: bool)
    ensures
        r == (a@ == b@),
{
    let n = a.unicode_len();
    let m = b.unicode_len();
    if n != m {
        return false;
    }
    let mut i: usize = 0;
    while i < n
        invariant
            i <= n,
            n == a@.len(),
            m == b@.len(),
            n == m,
            a@.take(i as int) == b@.take(i as int),
        decreases n - i,
    {
        if a.get_char(i) != b.get_char(i) {
            return false;
        }
        assert(a@.take(i as int + 1) =~= a@.take(i as int).push(a@[i as int]));
        assert(b@.take(i as int + 1) =~= b@.take(i as int).push(b@[i as int]));
        i = i + 1;
    }
    assert(a@.take(n as int) =~= a@);
    assert(b@.take(n as int) =~= b@);
    true
}

} // verus!
