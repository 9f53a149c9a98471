use vstd::prelude::*;

verus! {

/// Every way in which turning a line of text into an expression can fail.
#[derive(Debug, Clone, Copy, PartialEq, Eq, Structural)]
pub enum ParsingTokenError {
    TooManyDots,
    InvalidToken,
    ParenthesisClosedWithoutOpening,
    ParenthesisOpenedWithoutClosing,
    InvalidSequence,
    OperationNotImplemented,
    Empty,
    UnknownOperation,
}

/// The human readable text that goes with each error kind.
pub open spec fn description_of(e: ParsingTokenError) -> Seq<char> {
    match e {
        ParsingTokenError::TooManyDots => "Too many dots in a float. A float can have only 1 dot"@,
        ParsingTokenError::InvalidToken => "Invalid token given"@,
        ParsingTokenError::ParenthesisClosedWithoutOpening => "Encountered ')' without respective opening"@,
        ParsingTokenError::InvalidSequence => "Encountered invalid sequence"@,
        ParsingTokenError::ParenthesisOpenedWithoutClosing => "Encountered '(' without respective closing"@,
        ParsingTokenError::Empty => ""@,
        ParsingTokenError::OperationNotImplemented => "Operation is not implemented"@,
        ParsingTokenError::UnknownOperation => "Operation not known"@,
    }
}

impl ParsingTokenError {
    /// A short sentence describing the error.
    pub fn __description(&self) -> (r: &'static str)
        ensures
            r@ == description_of(*self),
    {
        match self {
            ParsingTokenError::TooManyDots => "Too many dots in a float. A float can have only 1 dot",
            ParsingTokenError::InvalidToken => "Invalid token given",
            ParsingTokenError::ParenthesisClosedWithoutOpening => "Encountered ')' without respective opening",
            ParsingTokenError::InvalidSequence => "Encountered invalid sequence",
            ParsingTokenError::ParenthesisOpenedWithoutClosing => "Encountered '(' without respective closing",
            ParsingTokenError::Empty => "",
            ParsingTokenError::OperationNotImplemented => "Operation is not implemented",
            ParsingTokenError::UnknownOperation => "Operation not known",
        }
    }
}

} // verus!
