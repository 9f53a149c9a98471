use vstd::prelude::*;

use crate::error::ParsingTokenError;

verus! {

/// The four arithmetic operations that take two operands.
#[derive(Debug, Clone, Copy, PartialEq, Eq, Structural)]
pub enum BinaryOp {
    Sum,
    Sub,
    Mul,
    Div,
}

/// The binary operation written as the single character `c`, if any.
pub open spec fn binary_of_char(c: char) -> Option<BinaryOp> {
    if c == '+' {
        Some(BinaryOp::Sum)
    } else if c == '-' {
        Some(BinaryOp::Sub)
    } else if c == '*' {
        Some(BinaryOp::Mul)
    } else if c == '/' {
        Some(BinaryOp::Div)
    } else {
        None
    }
}

/// The binary operation named by the text `s`: exactly one operator character.
pub open spec fn binary_of(s: Seq<char>) -> Option<BinaryOp> {
    if s.len() == 1 {
        binary_of_char(s[0])
    } else {
        None
    }
}

impl BinaryOp {
    /// Looks up the operation written as `c`.
    pub fn from_symbol(c: char) -> (r: Result<BinaryOp, ParsingTokenError>)
        ensures
            match binary_of_char(c) {
                Some(op) => r == Ok::<BinaryOp, ParsingTokenError>(op),
                None => r == Err::<BinaryOp, ParsingTokenError>(
                    ParsingTokenError::OperationNotImplemented,
                ),
            },
    {
        match c {
            '+' => Ok(BinaryOp::Sum),
            '-' => Ok(BinaryOp::Sub),
            '*' => Ok(BinaryOp::Mul),
            '/' => Ok(BinaryOp::Div),
            _ => Err(ParsingTokenError::OperationNotImplemented),
        }
    }

    /// Looks up the operation named by the whole text `s`.
    pub fn from_text(s: &Vec<char>) -> (r: Result<BinaryOp, ParsingTokenError>)
        ensures
            match binary_of(s@) {
                Some(op) => r == Ok::<BinaryOp, ParsingTokenError>(op),
                None => r == Err::<BinaryOp, ParsingTokenError>(
                    ParsingTokenError::OperationNotImplemented,
                ),
            },
    {
        if s.len() == 1 {
            BinaryOp::from_symbol(s[0])
        } else {
            Err(ParsingTokenError::OperationNotImplemented)
        }
    }
}

} // verus!
