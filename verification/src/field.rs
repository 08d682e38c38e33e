//! The typed values that instructions operate on and produce.

use vstd::prelude::*;
use vstd::string::*;
use crate::text::{dec_i64, i64_to_text};

verus! {

/// An operand or result value: a 64-bit signed integer or a text.
#[derive(Debug)]
pub enum Field {
    Integer(i64),
    Text(String),
}

/// The spec-level value of a [`Field`].
pub enum FieldV {
    Integer(i64),
    Text(Seq<char>),
}

impl View for Field {
    type V = FieldV;

    open spec fn view(&self) -> FieldV {
        match self {
            Field::Integer(i) => FieldV::Integer(*i),
            Field::Text(s) => FieldV::Text(s@),
        }
    }
}

impl DeepView for Field {
    type V = FieldV;

    open spec fn deep_view(&self) -> FieldV {
        self.view()
    }
}

/// The text a value is rendered as: decimal digits for an integer, the
/// text itself otherwise.
pub open spec fn render_value(v: FieldV) -> Seq<char> {
    match v {
        FieldV::Integer(i) => dec_i64(i as int),
        FieldV::Text(t) => t,
    }
}

impl Field {
    /// Returns the integer value when the field holds one.
    pub fn to_int(&self) -> (r: Option<i64>)
        ensures
            match self@ {
                FieldV::Integer(i) => r == Some(i),
                FieldV::Text(_) => r is None,
            },
    {
        match self {
            Field::Integer(i) => Some(*i),
            _ => None,
        }
    }

    /// Returns the text value when the field holds one.
    pub fn to_s(&self) -> (r: Option<String>)
        ensures
            match self@ {
                FieldV::Text(t) => match r {
                    Some(x) => x@ == t,
                    None => false,
                },
                FieldV::Integer(_) => r is None,
            },
    {
        match self {
            Field::Text(s) => Some(s.clone()),
            _ => None,
        }
    }

    /// Renders the field as text.
    pub fn to_text(&self) -> (r: String)
        ensures
            r@ == render_value(self@),
    {
        match self {
            Field::Integer(i) => i64_to_text(*i),
            Field::Text(s) => s.clone(),
        }
    }
}

} // verus!
