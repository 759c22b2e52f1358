use vstd::prelude::*;

verus! {

/// One lexical unit of an arithmetic expression.
///
/// `Float` holds the IEEE-754 bit pattern of a double-precision value.
#[derive(Clone, Copy, Debug, PartialEq, Eq, Structural)]
pub enum Token {
    Integer(i32),
    Float(u64),
    Plus,
    Minus,
    Multiply,
    Divide,
    OpenContext,
    CloseContext,
    Error,
}

impl Token {
    /// A binary operator: `+`, `-`, `*` or `/`.
    pub open spec fn is_operator(self) -> bool {
        match self {
            Token::Plus | Token::Minus | Token::Multiply | Token::Divide => true,
            _ => false,
        }
    }

    /// A number: `Integer` or `Float`.
    pub open spec fn is_number(self) -> bool {
        match self {
            Token::Integer(_) | Token::Float(_) => true,
            _ => false,
        }
    }
}

} // verus!
