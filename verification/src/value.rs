//! The values held by nodes of the reactive graph.

use vstd::prelude::*;

verus! {

/// A value an observable or derivation can hold: a 64-bit integer or a
/// boolean. Equality is structural and is what suppresses change propagation
/// when a recompute produces the same value again.
#[derive(Clone, Copy, PartialEq, Eq, Structural, Debug)]
pub enum Value {
    Int(i64),
    Bool(bool),
}

impl Value {
    /// The integer reading of a value; booleans read as 0 or 1.
    pub open spec fn as_int_spec(self) -> i64 {
        match self {
            Value::Int(i) => i,
            Value::Bool(b) => if b {
                1
            } else {
                0
            },
        }
    }

    /// The boolean reading of a value; integers read as "non-zero".
    pub open spec fn as_bool_spec(self) -> bool {
        match self {
            Value::Int(i) => i != 0,
            Value::Bool(b) => b,
        }
    }

    pub fn as_int(self) -> (r: i64)
        ensures
            r == self.as_int_spec(),
    {
        match self {
            Value::Int(i) => i,
            Value::Bool(b) => if b {
                1
            } else {
                0
            },
        }
    }

    pub fn as_bool(self) -> (r: bool)
        ensures
            r == self.as_bool_spec(),
    {
        match self {
            Value::Int(i) => i != 0,
            Value::Bool(b) => b,
        }
    }

    /// Structural equality test, usable where `==` is needed in executable
    /// code with a proved meaning.
    pub fn eq_value(self, other: Value) -> (r: bool)
        ensures
            r == (self == other),
    {
        match (self, other) {
            (Value::Int(a), Value::Int(b)) => a == b,
            (Value::Bool(a), Value::Bool(b)) => a == b,
            _ => false,
        }
    }
}

/// Wrapping addition on the integer readings, the arithmetic used by sum
/// expressions.
pub open spec fn wrap_add_spec(a: i64, b: i64) -> i64 {
    if a + b > i64::MAX {
        (a + b - 0x1_0000_0000_0000_0000) as i64
    } else if a + b < i64::MIN {
        (a + b + 0x1_0000_0000_0000_0000) as i64
    } else {
        (a + b) as i64
    }
}

pub fn wrap_add(a: i64, b: i64) -> (r: i64)
    ensures
        r == wrap_add_spec(a, b),
{
    a.wrapping_add(b)
}

} // verus!
