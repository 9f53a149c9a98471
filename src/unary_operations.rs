use vstd::prelude::*;

use crate::error::ParsingTokenError;

verus! {

/// The functions of one operand.
#[derive(Debug, Clone, Copy, PartialEq, Eq, Structural)]
pub enum UnaryOp {
    SquareRoot,
    Cos,
    Acos,
    Sin,
}

/// The symbol that also names the square root.
pub const ROOT_SIGN: char = '\u{221a}';

/// The unary operation named by the text `s`, if any.
pub open spec fn unary_of(s: Seq<char>) -> Option<UnaryOp> {
    if s == seq!['s', 'q', 'r', 't'] || s == seq![ROOT_SIGN] {
        Some(UnaryOp::SquareRoot)
    } else if s == seq!['c', 'o', 's'] {
        Some(UnaryOp::Cos)
    } else if s == seq!['a', 'c', 'o', 's'] {
        Some(UnaryOp::Acos)
    } else if s == seq!['s', 'i', 'n'] {
        Some(UnaryOp::Sin)
    } else {
        None
    }
}

fn text_is(s: &Vec<char>, name: &[char]) -> (r: bool)
    ensures
        r == (s@ == name@),
{
    if s.len() != name.len() {
        return false;
    }
    let mut i: usize = 0;
    while i < s.len()
        invariant
            s.len() == name.len(),
            i <= s.len(),
            s@.subrange(0, i as int) == name@.subrange(0, i as int),
        decreases s.len() - i,
    {
        if s[i] != name[i] {
            return false;
        }
        assert(s@.subrange(0, i + 1) == s@.subrange(0, i as int).push(s@[i as int]));
        assert(name@.subrange(0, i + 1) == name@.subrange(0, i as int).push(name@[i as int]));
        i = i + 1;
    }
    assert(s@ == s@.subrange(0, s@.len() as int));
    assert(name@ == name@.subrange(0, name@.len() as int));
    true
}

impl UnaryOp {
    /// Looks up the operation named by the whole text `s`.
    pub fn from_name(s: &Vec<char>) -> (r: Result<UnaryOp, ParsingTokenError>)
        ensures
            match unary_of(s@) {
                Some(op) => r == Ok::<UnaryOp, ParsingTokenError>(op),
                None => r == Err::<UnaryOp, ParsingTokenError>(
                    ParsingTokenError::OperationNotImplemented,
                ),
            },
    {
        let sqrt = ['s', 'q', 'r', 't'];
        let root = [ROOT_SIGN];
        let cos = ['c', 'o', 's'];
        let acos = ['a', 'c', 'o', 's'];
        let sin = ['s', 'i', 'n'];
        assert(sqrt@ == seq!['s', 'q', 'r', 't']);
        assert(root@ == seq![ROOT_SIGN]);
        assert(cos@ == seq!['c', 'o', 's']);
        assert(acos@ == seq!['a', 'c', 'o', 's']);
        assert(sin@ == seq!['s', 'i', 'n']);
        if text_is(s, &sqrt) || text_is(s, &root) {
            Ok(UnaryOp::SquareRoot)
        } else if text_is(s, &cos) {
            Ok(UnaryOp::Cos)
        } else if text_is(s, &acos) {
            Ok(UnaryOp::Acos)
        } else if text_is(s, &sin) {
            Ok(UnaryOp::Sin)
        } else {
            Err(ParsingTokenError::OperationNotImplemented)
        }
    }
}

} // verus!
