//! Primitive values: what crosses the boundary between the host and an
//! exported function.

use vstd::prelude::*;

verus! {

/// The kinds of primitive values.
#[derive(Clone, Copy, Debug, PartialEq, Eq, Structural)]
pub enum Kind {
    /// Text.
    Text,
    /// Signed integers.
    Int,
    /// Truth values.
    Bool,
}

/// A primitive value handed to, or handed back by, an exported function.
#[derive(Debug, PartialEq, Eq)]
pub enum Value {
    /// A piece of text.
    Text(String),
    /// A signed integer.
    Int(i64),
    /// A truth value.
    Bool(bool),
}

/// The mathematical content of a [`Value`]: text is a sequence of characters.
pub ghost enum ValueView {
    Text(Seq<char>),
    Int(i64),
    Bool(bool),
}

impl View for Value {
    type V = ValueView;

    open spec fn view(&self) -> ValueView {
        match *self {
            Value::Text(s) => ValueView::Text(s@),
            Value::Int(n) => ValueView::Int(n),
            Value::Bool(b) => ValueView::Bool(b),
        }
    }
}

impl ValueView {
    /// The kind of the value.
    pub open spec fn kind(self) -> Kind {
        match self {
            ValueView::Text(_) => Kind::Text,
            ValueView::Int(_) => Kind::Int,
            ValueView::Bool(_) => Kind::Bool,
        }
    }
}

/// The contents of a list of values, element by element.
pub open spec fn views(values: Seq<Value>) -> Seq<ValueView> {
    values.map_values(|v: Value| v@)
}

impl Clone for Value {
    /// A copy with the same contents.
    fn clone(&self) -> (v: Value)
        ensures
            v@ == self@,
    {
        match self {
            Value::Text(s) => Value::Text(s.clone()),
            Value::Int(n) => Value::Int(*n),
            Value::Bool(b) => Value::Bool(*b),
        }
    }
}

impl Value {
    /// Makes a text value out of a string slice.
    pub fn text(s: &str) -> (v: Value)
        ensures
            v@ == ValueView::Text(s@),
    {
        Value::Text(s.to_owned())
    }

    /// The kind of the value.
    pub fn kind(&self) -> (k: Kind)
        ensures
            k == self@.kind(),
    {
        match self {
            Value::Text(_) => Kind::Text,
            Value::Int(_) => Kind::Int,
            Value::Bool(_) => Kind::Bool,
        }
    }
}

} // verus!
