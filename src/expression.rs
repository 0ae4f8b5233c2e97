use vstd::prelude::*;

use crate::token::{int_text, int_to_text, Token};

verus! {

/// A node of the syntax tree; each node owns its children.
#[derive(Debug, PartialEq)]
pub enum Expression {
    /// A numeric literal, kept as its decimal text.
    Num(String),
    Unary(Token, Box<Expression>),
    Binary(Box<Expression>, Token, Box<Expression>),
    Paren(Box<Expression>),
    Variable(String),
    Conditional(Box<Expression>, Box<Expression>, Box<Expression>),
}

impl Expression {
    /// A numeric literal node for an integer.
    pub fn number(n: i64) -> (r: Expression)
        ensures
            r is Num && r->Num_0@ == int_text(n as int),
    {
        Expression::Num(int_to_text(n))
    }
}

impl From<isize> for Expression {
    fn from(n: isize) -> (r: Expression)
        ensures
            r is Num && r->Num_0@ == int_text(n as int),
    {
        Expression::number(n as i64)
    }
}

/// A `String` payload has no spec-level constructor, so the generic `From`
/// contract is not claimed; the impl's own `ensures` states the result.
impl vstd::std_specs::convert::FromSpecImpl<isize> for Expression {
    open spec fn obeys_from_spec() -> bool {
        false
    }

    open spec fn from_spec(v: isize) -> Expression {
        arbitrary()
    }
}

} // verus!
