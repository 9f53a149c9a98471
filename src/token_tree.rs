use vstd::prelude::*;

use crate::grammar::{is_split_point, wrapped};
use crate::token::{Lexeme, Token};

verus! {

/// An expression tree; each node owns its children.
#[derive(Debug)]
pub enum TokenTree {
    /// A numeral.
    Single(Token),
    /// A unary operation applied to its operand.
    UnaryOperation(Token, Box<TokenTree>),
    /// A binary operation with its left and right operands.
    BinaryOperation(Box<TokenTree>, Token, Box<TokenTree>),
    /// An operand that stood in parentheses.
    Parenthesis(Box<TokenTree>),
}

/// `t` is the tree that splitting `ts` gives. A single token is a leaf; parentheses around
/// the whole sequence are dropped; otherwise the split point (see `is_split_point`) is the
/// root, with what stands left of it and right of it below.
pub open spec fn splits_into(ts: Seq<Lexeme>, t: TokenTree) -> bool
    decreases ts.len(),
{
    if ts.len() == 1 {
        t is Single && t->Single_0@ == ts[0]
    } else if ts.len() > 1 && wrapped(ts) {
        splits_into(ts.subrange(1, ts.len() - 1), t)
    } else if ts.len() > 1 && exists|k: int| is_split_point(ts, k) {
        let k = choose|k: int| is_split_point(ts, k);
        if ts[k] is Binary {
            &&& t is BinaryOperation
            &&& t->BinaryOperation_1@ == ts[k]
            &&& splits_into(ts.subrange(0, k), *t->BinaryOperation_0)
            &&& splits_into(ts.subrange(k + 1, ts.len() as int), *t->BinaryOperation_2)
        } else {
            &&& t is UnaryOperation
            &&& t->UnaryOperation_0@ == ts[k]
            &&& splits_into(ts.subrange(k + 1, ts.len() as int), *t->UnaryOperation_1)
        }
    } else {
        false
    }
}

} // verus!
