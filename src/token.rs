use vstd::prelude::*;

use crate::binary_operations::{binary_of, BinaryOp};
use crate::error::ParsingTokenError;
use crate::grammar::{fits_after, starts_operand};
use crate::unary_operations::{unary_of, UnaryOp};

verus! {

/// One lexical unit of an expression, as the tokenizer builds it.
#[derive(Debug, Clone, PartialEq)]
pub enum Token {
    /// Nothing has been accumulated yet.
    Unset,
    /// Operator characters that do not name an operation yet.
    Incomplete(Vec<char>),
    Integer(Vec<char>),
    Float(Vec<char>),
    BinaryOperation(BinaryOp),
    UnaryOperation(UnaryOp),
    ParenthesisOpen,
    ParenthesisClose,
}

/// What a `Token` stands for, with its text as a sequence of characters.
pub enum Lexeme {
    Unset,
    Incomplete(Seq<char>),
    Integer(Seq<char>),
    Float(Seq<char>),
    Binary(BinaryOp),
    Unary(UnaryOp),
    Open,
    Close,
}

impl View for Token {
    type V = Lexeme;

    open spec fn view(&self) -> Lexeme {
        match self {
            Token::Unset => Lexeme::Unset,
            Token::Incomplete(s) => Lexeme::Incomplete(s@),
            Token::Integer(s) => Lexeme::Integer(s@),
            Token::Float(s) => Lexeme::Float(s@),
            Token::BinaryOperation(op) => Lexeme::Binary(*op),
            Token::UnaryOperation(op) => Lexeme::Unary(*op),
            Token::ParenthesisOpen => Lexeme::Open,
            Token::ParenthesisClose => Lexeme::Close,
        }
    }
}

/// What an optional token stands for.
pub open spec fn option_view(t: Option<Token>) -> Option<Lexeme> {
    match t {
        Some(t) => Some(t@),
        None => None,
    }
}

/// The token that the single character `c` starts. Any character that is not a digit, a
/// dot or a parenthesis starts an operator name.
pub open spec fn classify(c: char) -> Lexeme {
    if '0' <= c && c <= '9' {
        Lexeme::Integer(seq![c])
    } else if c == '.' {
        Lexeme::Float(seq!['.'])
    } else if c == '(' {
        Lexeme::Open
    } else if c == ')' {
        Lexeme::Close
    } else {
        Lexeme::Incomplete(seq![c])
    }
}

/// The operation that the text `s` names: binary operations first, then unary ones.
pub open spec fn resolve(s: Seq<char>) -> Option<Lexeme> {
    match binary_of(s) {
        Some(op) => Some(Lexeme::Binary(op)),
        None => match unary_of(s) {
            Some(op) => Some(Lexeme::Unary(op)),
            None => None,
        },
    }
}

/// The merge table: how the token under construction `cur` takes the next character `c`.
/// On success: either the grown token alone, or the closed token followed by the token
/// that `c` starts.
pub open spec fn merge(cur: Lexeme, c: char) -> Result<(Lexeme, Option<Lexeme>), ParsingTokenError> {
    let other = classify(c);
    match cur {
        Lexeme::Incomplete(a) => match other {
            Lexeme::Incomplete(b) => Ok((Lexeme::Incomplete(a + b), None)),
            Lexeme::Integer(o) if a == seq!['-'] => Ok((Lexeme::Integer(a + o), None)),
            Lexeme::Float(o) if a == seq!['-'] => Ok((Lexeme::Float(a + o), None)),
            _ => match resolve(a) {
                Some(t) => Ok((t, Some(other))),
                None => Err(ParsingTokenError::UnknownOperation),
            },
        },
        Lexeme::Integer(n) => match other {
            Lexeme::Integer(o) => Ok((Lexeme::Integer(n + o), None)),
            Lexeme::Float(f) => Ok((Lexeme::Float(n + f), None)),
            _ => Ok((cur, Some(other))),
        },
        Lexeme::Float(n) => match other {
            Lexeme::Integer(o) => Ok((Lexeme::Float(n + o), None)),
            Lexeme::Float(_) => Err(ParsingTokenError::TooManyDots),
            _ => Ok((cur, Some(other))),
        },
        Lexeme::Unset => Ok((other, None)),
        _ => Ok((cur, Some(other))),
    }
}

/// Grade of an operator at parenthesis depth `depth`; the lowest grade binds most loosely.
pub open spec fn grade_of(t: Lexeme, depth: nat) -> Option<nat> {
    match t {
        Lexeme::Binary(BinaryOp::Sum) => Some(1 + depth * 1_000_000),
        Lexeme::Binary(BinaryOp::Sub) => Some(1 + depth * 1_000_000),
        Lexeme::Binary(BinaryOp::Mul) => Some(2 + depth * 1_000_000),
        Lexeme::Binary(BinaryOp::Div) => Some(2 + depth * 1_000_000),
        Lexeme::Unary(_) => Some(4 + depth * 1_000_000),
        _ => None,
    }
}

/// The adjacency rules: whether `next` may come right after `prev`.
pub open spec fn may_follow(prev: Lexeme, next: Lexeme) -> bool {
    match (prev, next) {
        (_, Lexeme::Unset) => false,
        (Lexeme::Unset, Lexeme::Binary(_)) => false,
        (Lexeme::Binary(_), Lexeme::Binary(_)) => false,
        (Lexeme::Unary(_), Lexeme::Binary(_)) => false,
        (Lexeme::Binary(_), Lexeme::Close) => false,
        (Lexeme::Float(_), Lexeme::Open) => false,
        (Lexeme::Integer(_), Lexeme::Open) => false,
        _ => true,
    }
}

impl Token {
    fn new(c: char) -> (r: Token)
        ensures
            r@ == classify(c),
            r is Incomplete || r is Integer || r is Float || r is ParenthesisOpen
                || r is ParenthesisClose,
    {
        if '0' <= c && c <= '9' {
            let v = vec![c];
            assert(v@ == seq![c]);
            Token::Integer(v)
        } else if c == '.' {
            let v = vec!['.'];
            assert(v@ == seq!['.']);
            Token::Float(v)
        } else if c == '(' {
            Token::ParenthesisOpen
        } else if c == ')' {
            Token::ParenthesisClose
        } else {
            let v = vec![c];
            assert(v@ == seq![c]);
            Token::Incomplete(v)
        }
    }

    pub(crate) fn operation_from_str(s: &Vec<char>) -> (r: Option<Token>)
        ensures
            option_view(r) == resolve(s@),
    {
        match BinaryOp::from_text(s) {
            Ok(op) => Some(Token::BinaryOperation(op)),
            Err(_) => match UnaryOp::from_name(s) {
                Ok(op) => Some(Token::UnaryOperation(op)),
                Err(_) => None,
            },
        }
    }

    /// The grade of this token as an operator at parenthesis depth `parenthesis`, or `None`
    /// when it is no operator.
    pub fn get_grade(&self, parenthesis: usize) -> (r: Option<usize>)
        requires
            parenthesis <= (usize::MAX - 4) / 1_000_000,
        ensures
            match grade_of(self@, parenthesis as nat) {
                Some(g) => r == Some(g as usize),
                None => r is None,
            },
    {
        assert(parenthesis * 1_000_000 <= usize::MAX - 4) by (nonlinear_arith)
            requires
                parenthesis <= (usize::MAX - 4) / 1_000_000,
                usize::MAX >= 4,
        ;
        let offset: usize = parenthesis * 1_000_000;
        match self {
            Token::BinaryOperation(BinaryOp::Sum) => Some(1 + offset),
            Token::BinaryOperation(BinaryOp::Sub) => Some(1 + offset),
            Token::BinaryOperation(BinaryOp::Mul) => Some(2 + offset),
            Token::BinaryOperation(BinaryOp::Div) => Some(2 + offset),
            Token::UnaryOperation(_) => Some(4 + offset),
            _ => None,
        }
    }

    /// Whether `other` may stand right after this token.
    pub fn can_be_followed_by(&self, other: &Token) -> (r: bool)
        ensures
            r == may_follow(self@, other@),
    {
        match (self, other) {
            (_, Token::Unset) => false,
            (Token::Unset, Token::BinaryOperation(_)) => false,
            (Token::BinaryOperation(_), Token::BinaryOperation(_)) => false,
            (Token::UnaryOperation(_), Token::BinaryOperation(_)) => false,
            (Token::BinaryOperation(_), Token::ParenthesisClose) => false,
            (Token::Float(_), Token::ParenthesisOpen) => false,
            (Token::Integer(_), Token::ParenthesisOpen) => false,
            _ => true,
        }
    }

    /// Whether this is the empty placeholder.
    pub fn in_none(&self) -> (r: bool)
        ensures
            r == (self@ is Unset),
    {
        matches!(*self, Token::Unset)
    }

    /// Adds the character `c` to this token. Where `c` cannot be added, this token is closed:
    /// it comes back first, and the token that `c` starts comes back second.
    pub fn digest(self, c: char) -> (r: Result<(Token, Option<Token>), ParsingTokenError>)
        ensures
            match r {
                Ok((a, b)) => merge(self@, c) == Ok::<(Lexeme, Option<Lexeme>), ParsingTokenError>(
                    (a@, option_view(b)),
                ),
                Err(e) => merge(self@, c) == Err::<(Lexeme, Option<Lexeme>), ParsingTokenError>(e),
            },
    {
        let other = Token::new(c);
        match self {
            Token::Incomplete(mut a) => {
                let minus = a.len() == 1 && a[0] == '-';
                proof {
                    assert(minus == (a@ == seq!['-'])) by {
                        if a@.len() == 1 && a@[0] == '-' {
                            assert(a@ =~= seq!['-']);
                        }
                    }
                }
                match other {
                    Token::Incomplete(mut b) => {
                        a.append(&mut b);
                        Ok((Token::Incomplete(a), None))
                    },
                    Token::Integer(mut o) => {
                        if minus {
                            a.append(&mut o);
                            Ok((Token::Integer(a), None))
                        } else {
                            Token::close_incomplete(&a, Token::Integer(o))
                        }
                    },
                    Token::Float(mut o) => {
                        if minus {
                            a.append(&mut o);
                            Ok((Token::Float(a), None))
                        } else {
                            Token::close_incomplete(&a, Token::Float(o))
                        }
                    },
                    other => Token::close_incomplete(&a, other),
                }
            },
            Token::Integer(mut n) => match other {
                Token::Integer(mut o) => {
                    n.append(&mut o);
                    Ok((Token::Integer(n), None))
                },
                Token::Float(mut f) => {
                    n.append(&mut f);
                    Ok((Token::Float(n), None))
                },
                other => Ok((Token::Integer(n), Some(other))),
            },
            Token::Float(mut n) => match other {
                Token::Integer(mut o) => {
                    n.append(&mut o);
                    Ok((Token::Float(n), None))
                },
                Token::Float(_) => Err(ParsingTokenError::TooManyDots),
                other => Ok((Token::Float(n), Some(other))),
            },
            Token::Unset => Ok((other, None)),
            this => Ok((this, Some(other))),
        }
    }

    fn close_incomplete(a: &Vec<char>, other: Token) -> (r: Result<(Token, Option<Token>), ParsingTokenError>)
        ensures
            match resolve(a@) {
                Some(t) => r is Ok && r->Ok_0.0@ == t && r->Ok_0.1 == Some(other),
                None => r == Err::<(Token, Option<Token>), ParsingTokenError>(ParsingTokenError::UnknownOperation),
            },
    {
        match Token::operation_from_str(a) {
            Some(t) => Ok((t, Some(other))),
            None => Err(ParsingTokenError::UnknownOperation),
        }
    }

    /// Whether this token can begin an operand.
    pub(crate) fn starts_operand(&self) -> (r: bool)
        ensures
            r == starts_operand(self@),
    {
        match self {
            Token::Integer(_) | Token::Float(_) | Token::ParenthesisOpen | Token::UnaryOperation(_) => true,
            _ => false,
        }
    }

    /// Whether `next` may come right after this token in a complete expression.
    pub(crate) fn fits_before(&self, next: &Token) -> (r: bool)
        ensures
            r == fits_after(self@, next@),
    {
        match self {
            Token::Integer(_) | Token::Float(_) | Token::ParenthesisClose => match next {
                Token::BinaryOperation(_) | Token::ParenthesisClose => true,
                _ => false,
            },
            Token::ParenthesisOpen | Token::UnaryOperation(_) | Token::BinaryOperation(_) => next.starts_operand(),
            _ => false,
        }
    }
}

} // verus!
