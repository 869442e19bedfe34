//! The scalar values a form can hold, and their textual forms.

use vstd::prelude::*;

use crate::text;

verus! {

/// The mathematical model of a [`Value`]: the kind tag with the payload as
/// a plain mathematical object.
pub ghost enum ValueModel {
    B(bool),
    I(int),
    F(Seq<char>),
    S(Seq<char>),
}

impl ValueModel {
    /// Whether two values carry the same kind tag, payloads aside.
    pub open spec fn same_kind(self, other: ValueModel) -> bool {
        match (self, other) {
            (ValueModel::B(_), ValueModel::B(_)) => true,
            (ValueModel::I(_), ValueModel::I(_)) => true,
            (ValueModel::F(_), ValueModel::F(_)) => true,
            (ValueModel::S(_), ValueModel::S(_)) => true,
            _ => false,
        }
    }

    /// An integer payload fits in 64 signed bits, and a float payload is
    /// genuine literal text.
    pub open spec fn wf(self) -> bool {
        match self {
            ValueModel::I(i) => -0x8000000000000000 <= i <= 0x7fffffffffffffff,
            ValueModel::F(t) => text::is_float_literal(t),
            _ => true,
        }
    }
}

/// A configuration value whose kind is boolean, 64-bit integer, float, or
/// string.
///
/// A float value carries its literal text exactly as it was given (for
/// example `"0.2"` or `"1e-3"`), validated against the standard
/// floating-point grammar when it enters through parsing; two float values
/// are the same value exactly when their texts agree. Turning the text
/// into a machine float is the embedding application's concern.
#[derive(Debug)]
pub enum Value {
    B(bool),
    I(i64),
    F(String),
    S(String),
}

impl View for Value {
    type V = ValueModel;

    open spec fn view(&self) -> ValueModel {
        match self {
            Value::B(b) => ValueModel::B(*b),
            Value::I(i) => ValueModel::I(*i as int),
            Value::F(t) => ValueModel::F(t@),
            Value::S(s) => ValueModel::S(s@),
        }
    }
}

impl Clone for Value {
    fn clone(&self) -> (res: Self)
        ensures
            res == *self,
    {
        match self {
            Value::B(b) => Value::B(*b),
            Value::I(i) => Value::I(*i),
            Value::F(t) => Value::F(t.clone()),
            Value::S(s) => Value::S(s.clone()),
        }
    }
}

/// The text a value renders to: `"true"`/`"false"` for booleans, decimal
/// digits for integers, the carried literal for floats, the payload
/// verbatim for strings.
pub open spec fn spec_render(v: ValueModel) -> Seq<char> {
    match v {
        ValueModel::B(b) => text::bool_str(b),
        ValueModel::I(i) => text::int_str(i),
        ValueModel::F(t) => t,
        ValueModel::S(s) => s,
    }
}

/// What parsing `s` at the kind of `kind_of` yields: `None` when the text
/// is not acceptable for that kind.
pub open spec fn spec_parse_as(kind_of: ValueModel, s: Seq<char>) -> Option<ValueModel> {
    match kind_of {
        ValueModel::B(_) => match text::spec_parse_bool(s) {
            Option::Some(b) => Option::Some(ValueModel::B(b)),
            Option::None => Option::None,
        },
        ValueModel::I(_) => match text::spec_parse_i64(s) {
            Option::Some(v) => Option::Some(ValueModel::I(v as int)),
            Option::None => Option::None,
        },
        ValueModel::F(_) => if text::is_float_literal(s) {
            Option::Some(ValueModel::F(s))
        } else {
            Option::None
        },
        ValueModel::S(_) => Option::Some(ValueModel::S(s)),
    }
}

impl Value {
    /// Whether this value and another are of the same kind.
    pub fn same_kind_as(&self, other: &Value) -> (r: bool)
        ensures
            r == self@.same_kind(other@),
    {
        match (self, other) {
            (Value::B(_), Value::B(_)) => true,
            (Value::I(_), Value::I(_)) => true,
            (Value::F(_), Value::F(_)) => true,
            (Value::S(_), Value::S(_)) => true,
            _ => false,
        }
    }

    /// Whether this value and another are the same kind and payload.
    pub fn same_as(&self, other: &Value) -> (r: bool)
        ensures
            r == (self@ == other@),
    {
        match (self, other) {
            (Value::B(a), Value::B(b)) => *a == *b,
            (Value::I(a), Value::I(b)) => *a == *b,
            (Value::F(a), Value::F(b)) => text::str_eq(a.as_str(), b.as_str()),
            (Value::S(a), Value::S(b)) => text::str_eq(a.as_str(), b.as_str()),
            _ => false,
        }
    }

    /// The boolean payload; for use only on boolean values.
    pub fn as_bool(&self) -> (r: bool)
        requires
            self@ is B,
        ensures
            self@ == ValueModel::B(r),
    {
        match self {
            Value::B(b) => *b,
            _ => {
                proof {
                    assert(false);
                }
                false
            },
        }
    }

    /// The integer payload; for use only on integer values.
    pub fn as_int(&self) -> (r: i64)
        requires
            self@ is I,
        ensures
            self@ == ValueModel::I(r as int),
    {
        match self {
            Value::I(i) => *i,
            _ => {
                proof {
                    assert(false);
                }
                0
            },
        }
    }

    /// The literal text of a float value; for use only on float values.
    pub fn as_float_text(&self) -> (r: &str)
        requires
            self@ is F,
        ensures
            self@ == ValueModel::F(r@),
    {
        match self {
            Value::F(t) => t.as_str(),
            _ => {
                proof {
                    assert(false);
                }
                ""
            },
        }
    }

    /// The string payload; for use only on string values.
    pub fn as_str(&self) -> (r: &str)
        requires
            self@ is S,
        ensures
            self@ == ValueModel::S(r@),
    {
        match self {
            Value::S(s) => s.as_str(),
            _ => {
                proof {
                    assert(false);
                }
                ""
            },
        }
    }

    /// A float value from its literal text, or `None` when the text is not
    /// a floating-point literal.
    pub fn float_from_literal(t: &str) -> (r: Option<Value>)
        ensures
            text::is_float_literal(t@) ==> (r matches Some(v) && v@ == ValueModel::F(t@)),
            !text::is_float_literal(t@) ==> r is None,
    {
        if text::is_float_text(t) {
            Some(Value::F(t.to_owned()))
        } else {
            None
        }
    }

    /// The natural textual form of the payload, with no quoting.
    pub fn render(&self) -> (r: String)
        ensures
            r@ == spec_render(self@),
    {
        match self {
            Value::B(b) => text::render_bool(*b).to_owned(),
            Value::I(i) => text::render_i64(*i),
            Value::F(t) => t.clone(),
            Value::S(s) => s.clone(),
        }
    }

    /// Parses `raw` at this value's kind, exactly as [`spec_parse_as`]
    /// describes.
    pub fn parse_as(&self, raw: &str) -> (r: Option<Value>)
        ensures
            (r is Some) == (spec_parse_as(self@, raw@) is Some),
            r matches Some(v) ==> spec_parse_as(self@, raw@) == Some(v@) && v@.same_kind(self@),
    {
        match self {
            Value::B(_) => match text::parse_bool(raw) {
                Some(b) => Some(Value::B(b)),
                None => None,
            },
            Value::I(_) => match text::parse_i64(raw) {
                Some(v) => Some(Value::I(v)),
                None => None,
            },
            Value::F(_) => {
                if text::is_float_text(raw) {
                    Some(Value::F(raw.to_owned()))
                } else {
                    None
                }
            },
            Value::S(_) => Some(Value::S(raw.to_owned())),
        }
    }
}

impl From<bool> for Value {
    fn from(a: bool) -> Self {
        Value::B(a)
    }
}

impl vstd::std_specs::convert::FromSpecImpl<bool> for Value {
    open spec fn obeys_from_spec() -> bool {
        true
    }

    open spec fn from_spec(a: bool) -> Self {
        Value::B(a)
    }
}

impl From<i64> for Value {
    fn from(a: i64) -> Self {
        Value::I(a)
    }
}

impl vstd::std_specs::convert::FromSpecImpl<i64> for Value {
    open spec fn obeys_from_spec() -> bool {
        true
    }

    open spec fn from_spec(a: i64) -> Self {
        Value::I(a)
    }
}

impl From<&str> for Value {
    fn from(a: &str) -> Self {
        Value::S(a.to_owned())
    }
}

impl vstd::std_specs::convert::FromSpecImpl<&str> for Value {
    open spec fn obeys_from_spec() -> bool {
        false
    }

    open spec fn from_spec(a: &str) -> Self {
        arbitrary()
    }
}

/// Rendering a well-formed value and parsing the text back at the same
/// kind reproduces the value exactly.
pub proof fn lemma_render_parse_round_trip(v: ValueModel)
    requires
        v.wf(),
    ensures
        spec_parse_as(v, spec_render(v)) == Some(v),
{
    match v {
        ValueModel::B(b) => {
            text::lemma_bool_round_trip(b);
        },
        ValueModel::I(i) => {
            text::lemma_int_round_trip(i as i64);
        },
        ValueModel::F(_) => {
        },
        ValueModel::S(_) => {
        },
    }
}

} // verus!
