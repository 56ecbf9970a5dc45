use crate::span::Span;
use crate::Error;
use vstd::prelude::*;

verus! {

/// A runtime value. `Func` is not a closure: it carries only a name, resolved
/// against the immutable function table at call time. The evaluator's
/// arithmetic works on the `I32` variant; `I64` is part of the value alphabet
/// but no literal produces it, and arithmetic on it fails as "not a number".
#[derive(Clone, Debug, PartialEq)]
pub enum Value {
    Null,
    Bool(bool),
    I32(i32),
    I64(i64),
    Func(String),
}

/// The mathematical image of a runtime value: a function reference carries its
/// name as a sequence of characters.
pub enum ValueV {
    Null,
    Bool(bool),
    I32(i32),
    I64(i64),
    Func(Seq<char>),
}

impl View for Value {
    type V = ValueV;

    open spec fn view(&self) -> ValueV {
        match self {
            Value::Null => ValueV::Null,
            Value::Bool(b) => ValueV::Bool(*b),
            Value::I32(x) => ValueV::I32(*x),
            Value::I64(x) => ValueV::I64(*x),
            Value::Func(n) => ValueV::Func(n@),
        }
    }
}

impl Value {
    /// An exact copy. (The derived `Clone` is opaque to the verifier, so the
    /// library uses this method instead wherever the copy must be reasoned
    /// about.)
    pub fn dup(&self) -> (r: Value)
        ensures
            r@ == self@,
    {
        match self {
            Value::Null => Value::Null,
            Value::Bool(b) => Value::Bool(*b),
            Value::I32(x) => Value::I32(*x),
            Value::I64(x) => Value::I64(*x),
            Value::Func(n) => Value::Func(n.clone()),
        }
    }

    /// The 32-bit number this value holds, or an error at `span` when the
    /// value is not an `I32`.
    pub fn num_i32(self, span: Span) -> (r: Result<i32, Error>)
        ensures
            match self@ {
                ValueV::I32(x) => r == Ok::<i32, Error>(x),
                _ => r matches Err(e) && e.span == span && e.msg@ == "is not a number"@,
            },
    {
        if let Value::I32(x) = self {
            Ok(x)
        } else {
            Err(Error { span, msg: "is not a number".to_owned() })
        }
    }

    /// The 64-bit number this value holds, or an error at `span` when the
    /// value is not an `I64`.
    pub fn num_i64(self, span: Span) -> (r: Result<i64, Error>)
        ensures
            match self@ {
                ValueV::I64(x) => r == Ok::<i64, Error>(x),
                _ => r matches Err(e) && e.span == span && e.msg@ == "is not a number"@,
            },
    {
        if let Value::I64(x) = self {
            Ok(x)
        } else {
            Err(Error { span, msg: "is not a number".to_owned() })
        }
    }

    /// The boolean this value holds, or an error at `span` when the value is
    /// not a `Bool`.
    pub fn bool(self, span: Span) -> (r: Result<bool, Error>)
        ensures
            match self@ {
                ValueV::Bool(b) => r == Ok::<bool, Error>(b),
                _ => r matches Err(e) && e.span == span && e.msg@ == "is not a bool"@,
            },
    {
        if let Value::Bool(b) = self {
            Ok(b)
        } else {
            Err(Error { span, msg: "is not a bool".to_owned() })
        }
    }

    /// Structural equality of two values, with no coercion across variants:
    /// the `==`/`!=` semantics of the evaluator.
    pub open spec fn spec_eq(a: ValueV, b: ValueV) -> bool {
        match (a, b) {
            (ValueV::Null, ValueV::Null) => true,
            (ValueV::Bool(x), ValueV::Bool(y)) => x == y,
            (ValueV::I32(x), ValueV::I32(y)) => x == y,
            (ValueV::I64(x), ValueV::I64(y)) => x == y,
            (ValueV::Func(x), ValueV::Func(y)) => x == y,
            _ => false,
        }
    }

    /// Structural equality, executable form.
    pub fn eq_value(&self, other: &Value) -> (r: bool)
        ensures
            r == Value::spec_eq(self@, other@),
    {
        match (self, other) {
            (Value::Null, Value::Null) => true,
            (Value::Bool(x), Value::Bool(y)) => *x == *y,
            (Value::I32(x), Value::I32(y)) => *x == *y,
            (Value::I64(x), Value::I64(y)) => *x == *y,
            (Value::Func(x), Value::Func(y)) => *x == *y,
            _ => false,
        }
    }
}

} // verus!
