//! The tokens the lexer produces, their mathematical model, and the one
//! error the lexer can report.

use crate::ast::SpecValue;
use crate::ast::Value;
use vstd::prelude::*;

verus! {

/// One lexical unit of an expression string.
#[derive(Debug)]
pub enum LexItem {
    /// An operator word of the fixed comparison table: `eq`, `lt`, `gt`,
    /// `lte` or `gte`.
    ComparisonOperator(String),
    /// A structural character: `(`, `)`, `,`, `.` or `=`.
    SpecialChar(char),
    /// An operator word of the fixed logical table: `and` or `or`.
    ArrayOp(String),
    /// A scalar atom: an identifier, a quoted string, or a numeric literal.
    Symbol(Value),
}

/// The model of a [`LexItem`].
#[verifier::ext_equal]
pub enum SpecToken {
    ComparisonOperator(Seq<char>),
    SpecialChar(char),
    ArrayOp(Seq<char>),
    Symbol(SpecValue),
}

impl View for LexItem {
    type V = SpecToken;

    open spec fn view(&self) -> SpecToken {
        match self {
            LexItem::ComparisonOperator(s) => SpecToken::ComparisonOperator(s@),
            LexItem::SpecialChar(c) => SpecToken::SpecialChar(*c),
            LexItem::ArrayOp(s) => SpecToken::ArrayOp(s@),
            LexItem::Symbol(v) => SpecToken::Symbol(v@),
        }
    }
}

/// The models of a token sequence, in order.
pub open spec fn spec_tokens_of(s: Seq<LexItem>) -> Seq<SpecToken> {
    Seq::new(s.len(), |i: int| s[i]@)
}

impl Clone for LexItem {
    fn clone(&self) -> (r: LexItem)
        ensures
            r == *self,
    {
        match self {
            LexItem::ComparisonOperator(s) => LexItem::ComparisonOperator(s.clone()),
            LexItem::SpecialChar(c) => LexItem::SpecialChar(*c),
            LexItem::ArrayOp(s) => LexItem::ArrayOp(s.clone()),
            LexItem::Symbol(v) => LexItem::Symbol(v.clone()),
        }
    }
}

impl PartialEq for LexItem {
    fn eq(&self, other: &LexItem) -> (r: bool) {
        match (self, other) {
            (LexItem::ComparisonOperator(a), LexItem::ComparisonOperator(b)) => *a == *b,
            (LexItem::SpecialChar(a), LexItem::SpecialChar(b)) => *a == *b,
            (LexItem::ArrayOp(a), LexItem::ArrayOp(b)) => *a == *b,
            (LexItem::Symbol(a), LexItem::Symbol(b)) => *a == *b,
            _ => false,
        }
    }
}

impl Eq for LexItem {

}

impl vstd::std_specs::cmp::PartialEqSpecImpl for LexItem {
    open spec fn obeys_eq_spec() -> bool {
        true
    }

    open spec fn eq_spec(&self, other: &LexItem) -> bool {
        self@ == other@
    }
}

/// The lexer's rejection: a character that starts no token stood at
/// `position` in the input.
#[derive(Debug, Clone, Copy)]
pub struct LexError {
    pub position: usize,
    pub character: char,
}

} // verus!
