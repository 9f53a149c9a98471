use vstd::prelude::*;

use crate::error::ParsingTokenError;
use crate::grammar::{lemma_validation_fault, validation_fault};
use crate::token_set::{chars_of, lex, Invalid, TokenSet};
use crate::token_tree::{splits_into, TokenTree};

verus! {

/// The characters of `cs` with every space left out.
pub open spec fn without_spaces(cs: Seq<char>) -> Seq<char>
    decreases cs.len(),
{
    if cs.len() == 0 {
        Seq::empty()
    } else if cs.last() == ' ' {
        without_spaces(cs.drop_last())
    } else {
        without_spaces(cs.drop_last()).push(cs.last())
    }
}

/// Turns the text `input` into the tree of the expression it writes. Spaces are ignored;
/// tokenizing, then validation, report the first fault they meet.
pub fn parse_tree(input: &str) -> (r: Result<TokenTree, ParsingTokenError>)
    ensures
        match lex(without_spaces(input@)) {
            Err(e) => r == Err::<TokenTree, ParsingTokenError>(e),
            Ok(ts) => match validation_fault(ts) {
                Some(e) => r == Err::<TokenTree, ParsingTokenError>(e),
                None => r is Ok && splits_into(ts, r->Ok_0),
            },
        },
{
    let all = chars_of(input);
    let mut cs: Vec<char> = Vec::new();
    let mut i: usize = 0;
    while i < all.len()
        invariant
            i <= all.len(),
            cs@ == without_spaces(all@.subrange(0, i as int)),
        decreases all.len() - i,
    {
        assert(all@.subrange(0, i + 1).drop_last() == all@.subrange(0, i as int));
        if all[i] != ' ' {
            cs.push(all[i]);
        }
        i = i + 1;
    }
    assert(all@.subrange(0, all@.len() as int) == all@);
    let set: TokenSet<Invalid> = TokenSet::from_chars(&cs)?;
    proof {
        lemma_validation_fault(set.tokens());
    }
    let valid = set.validate()?;
    Ok(valid.split())
}

} // verus!
