//! Runtime values of Lox and the errors that evaluating them can raise.
//!
//! A value is generic over the representation of numbers: the library moves
//! numbers around and never computes with them, so the number type is left to
//! the evaluator that does.
use vstd::prelude::*;

verus! {

/// A runtime value produced by evaluating a Lox expression.
#[derive(Debug, PartialEq, Clone)]
pub enum Value<N> {
    /// A number.
    Number(N),
    /// A string value.
    Str(String),
    /// A boolean value (`true` or `false`).
    Boolean(bool),
    /// The nil value, representing the absence of a value.
    Nil,
}

/// An error raised while evaluating Lox.
#[derive(Debug, PartialEq)]
pub enum LoxError<V> {
    /// An operand that had to be a number was not one.
    NumberConversionError(V),
    /// A variable was read or assigned that no enclosing scope declares.
    VariableNotFound(String),
}

/// Truthiness: `false` and `nil` are falsey, everything else is truthy.
pub open spec fn truthy<N>(v: Value<N>) -> bool {
    match v {
        Value::Nil => false,
        Value::Boolean(b) => b,
        _ => true,
    }
}

/// The number that a value holds, or the error that names the value.
pub open spec fn number_of<N>(v: Value<N>) -> Result<N, LoxError<Value<N>>> {
    match v {
        Value::Number(n) => Ok(n),
        _ => Err(LoxError::NumberConversionError(v)),
    }
}

impl<N> Value<N> {
    /// Whether the value counts as true in a condition: `false` and `nil`
    /// are falsey, and everything else is truthy.
    pub fn is_truthy(&self) -> (b: bool)
        ensures
            b == truthy(*self),
    {
        match self {
            Value::Nil => false,
            Value::Boolean(b) => *b,
            _ => true,
        }
    }
}

impl<N> From<Value<N>> for bool {
    /// Truthiness conversion: `false` and `nil` are falsey, and everything
    /// else is truthy.
    fn from(v: Value<N>) -> (b: bool) {
        v.is_truthy()
    }
}

impl<N> vstd::std_specs::convert::FromSpecImpl<Value<N>> for bool {
    open spec fn obeys_from_spec() -> bool {
        true
    }

    open spec fn from_spec(v: Value<N>) -> bool {
        truthy(v)
    }
}


/// Only `false` and `nil` are falsey; every other value is truthy.
pub proof fn law_truthiness<N>(v: Value<N>)
    ensures
        truthy(v) <==> !(v is Nil || v == Value::<N>::Boolean(false)),
{
}

/// A number converts to itself; any other value is a conversion error that
/// carries the value.
pub proof fn law_number_conversion<N>(v: Value<N>)
    ensures
        v matches Value::Number(n) ==> number_of(v) == Ok::<N, LoxError<Value<N>>>(n),
        !(v is Number) ==> number_of(v) == Err::<N, LoxError<Value<N>>>(
            LoxError::NumberConversionError(v),
        ),
{
}

/// The number that a value holds; any other value is a
/// `NumberConversionError` that carries the value.
pub fn to_number<N>(v: Value<N>) -> (r: Result<N, LoxError<Value<N>>>)
    ensures
        r == number_of(v),
{
    match v {
        Value::Number(n) => Ok(n),
        _ => Err(LoxError::NumberConversionError(v)),
    }
}

} // verus!
