use vstd::prelude::*;

use crate::error::ParsingTokenError;
use crate::grammar::{
    depth_before, fits_after, rule_fault_from, lemma_depth_step, lemma_part_well_formed,
    previous, validation_fault, well_formed, wrapped,
};
use crate::binary_operations::BinaryOp;
use crate::token::{classify, may_follow, merge, resolve, Lexeme};
use crate::unary_operations::ROOT_SIGN;
use crate::token_set::{is_subtraction, lex, lex_from};
use crate::token_tree::{splits_into, TokenTree};

verus! {

/// Splitting a sequence of one token gives a leaf holding that token.
pub proof fn lemma_single_token_is_leaf(ts: Seq<Lexeme>, t: TokenTree)
    requires
        ts.len() == 1,
        splits_into(ts, t),
    ensures
        t is Single,
        t->Single_0@ == ts[0],
{
}

/// Dropping the pair of parentheses around a whole well-formed expression leaves a
/// well-formed expression that splits into exactly the same trees.
pub proof fn lemma_outer_parentheses_elided(ts: Seq<Lexeme>, t: TokenTree)
    requires
        well_formed(ts),
        wrapped(ts),
    ensures
        well_formed(ts.subrange(1, ts.len() - 1)),
        splits_into(ts, t) == splits_into(ts.subrange(1, ts.len() - 1), t),
{
    let n = ts.len() as int;
    assert(fits_after(ts[1 - 1], ts[1]));
    assert(fits_after(ts[(n - 1) - 1], ts[n - 1]));
    lemma_depth_step(ts, n - 1);
    lemma_depth_step(ts, 0);
    assert forall|i: int| 1 <= i <= n - 1 implies #[trigger] depth_before(ts, i) >= depth_before(ts, 1) by {
        assert(depth_before(ts, i) >= 1);
    }
    lemma_part_well_formed(ts, 1, n - 1);
}

/// No operator name is left unresolved and every token may follow the one before it: only
/// the parentheses may be out of balance.
pub open spec fn fits_except_balance(ts: Seq<Lexeme>) -> bool {
    forall|i: int|
        0 <= i < ts.len() ==> !(ts[i] is Incomplete) && #[trigger] may_follow(previous(ts, i), ts[i])
}

proof fn lemma_balance_fault_from(ts: Seq<Lexeme>, i: int)
    requires
        fits_except_balance(ts),
        0 <= i <= ts.len(),
        forall|j: int| 0 <= j <= i ==> #[trigger] depth_before(ts, j) >= 0,
    ensures
        (exists|j: int| i < j <= ts.len() && #[trigger] depth_before(ts, j) < 0) ==> rule_fault_from(
            ts,
            i,
        ) == Some(ParsingTokenError::ParenthesisClosedWithoutOpening),
        (forall|j: int| 0 <= j <= ts.len() ==> #[trigger] depth_before(ts, j) >= 0) && depth_before(
            ts,
            ts.len() as int,
        ) != 0 ==> rule_fault_from(ts, i) == Some(ParsingTokenError::ParenthesisOpenedWithoutClosing),
    decreases ts.len() - i,
{
    if i < ts.len() {
        assert(may_follow(previous(ts, i), ts[i]));
        if depth_before(ts, i + 1) >= 0 {
            lemma_balance_fault_from(ts, i + 1);
            if exists|j: int| i < j <= ts.len() && #[trigger] depth_before(ts, j) < 0 {
                let j = choose|j: int| i < j <= ts.len() && #[trigger] depth_before(ts, j) < 0;
                assert(j != i + 1);
            }
        }
    }
}

/// Where only the parentheses are wrong, validation names the fault: a parenthesis closed
/// that was never opened, or one opened that is never closed.
pub proof fn lemma_unbalanced_parentheses(ts: Seq<Lexeme>)
    requires
        ts.len() > 0,
        fits_except_balance(ts),
    ensures
        (exists|j: int| 0 <= j <= ts.len() && #[trigger] depth_before(ts, j) < 0) ==> validation_fault(
            ts,
        ) == Some(ParsingTokenError::ParenthesisClosedWithoutOpening),
        (forall|j: int| 0 <= j <= ts.len() ==> #[trigger] depth_before(ts, j) >= 0) && depth_before(
            ts,
            ts.len() as int,
        ) != 0 ==> validation_fault(ts) == Some(ParsingTokenError::ParenthesisOpenedWithoutClosing),
{
    assert forall|j: int| 0 <= j <= 0 implies #[trigger] depth_before(ts, j) >= 0 by {}
    lemma_balance_fault_from(ts, 0);
    if exists|j: int| 0 <= j <= ts.len() && #[trigger] depth_before(ts, j) < 0 {
        let j = choose|j: int| 0 <= j <= ts.len() && #[trigger] depth_before(ts, j) < 0;
        assert(j != 0);
    }
}

/// The closed tokens and the token under construction once `cs` has been read, or the
/// first error met on the way.
pub open spec fn lex_state(cs: Seq<char>, done: Seq<Lexeme>, cur: Lexeme) -> Result<
    (Seq<Lexeme>, Lexeme),
    ParsingTokenError,
>
    decreases cs.len(),
{
    if cs.len() == 0 {
        Ok((done, cur))
    } else {
        let c = cs[0];
        let done1 = if is_subtraction(done, cur, c) {
            done.push(Lexeme::Binary(BinaryOp::Sub))
        } else {
            done
        };
        let cur1 = if is_subtraction(done, cur, c) {
            Lexeme::Unset
        } else {
            cur
        };
        match merge(cur1, c) {
            Err(e) => Err(e),
            Ok((a, None)) => lex_state(cs.drop_first(), done1, a),
            Ok((a, Some(b))) => lex_state(cs.drop_first(), done1.push(a), b),
        }
    }
}

/// Tokenizing `p + q` is reading `p`, then tokenizing `q` from the state that `p` left.
pub proof fn lemma_lex_append(p: Seq<char>, q: Seq<char>, done: Seq<Lexeme>, cur: Lexeme)
    ensures
        lex_from(p + q, done, cur) == match lex_state(p, done, cur) {
            Err(e) => Err(e),
            Ok((d, c)) => lex_from(q, d, c),
        },
        lex_state(p, done, cur) is Err ==> lex_state(p, done, cur) == Err::<
            (Seq<Lexeme>, Lexeme),
            ParsingTokenError,
        >(ParsingTokenError::TooManyDots) || lex_state(p, done, cur) == Err::<
            (Seq<Lexeme>, Lexeme),
            ParsingTokenError,
        >(ParsingTokenError::UnknownOperation),
    decreases p.len(),
{
    if p.len() == 0 {
        assert(p + q =~= q);
    } else {
        assert((p + q)[0] == p[0]);
        assert((p + q).drop_first() =~= p.drop_first() + q);
        let c = p[0];
        let done1 = if is_subtraction(done, cur, c) {
            done.push(Lexeme::Binary(BinaryOp::Sub))
        } else {
            done
        };
        let cur1 = if is_subtraction(done, cur, c) {
            Lexeme::Unset
        } else {
            cur
        };
        match merge(cur1, c) {
            Err(e) => {},
            Ok((a, None)) => lemma_lex_append(p.drop_first(), q, done1, a),
            Ok((a, Some(b))) => lemma_lex_append(p.drop_first(), q, done1.push(a), b),
        }
    }
}

/// A decimal digit.
pub open spec fn is_digit(c: char) -> bool {
    '0' <= c && c <= '9'
}

/// Digits read into an integer under construction extend it.
proof fn lemma_digits_extend(cs: Seq<char>, done: Seq<Lexeme>, n: Seq<char>)
    requires
        forall|i: int| 0 <= i < cs.len() ==> is_digit(#[trigger] cs[i]),
    ensures
        lex_from(cs, done, Lexeme::Integer(n)) == Ok::<Seq<Lexeme>, ParsingTokenError>(
            done.push(Lexeme::Integer(n + cs)),
        ),
    decreases cs.len(),
{
    if cs.len() == 0 {
        assert(n + cs =~= n);
    } else {
        assert(is_digit(cs[0]));
        assert(n + seq![cs[0]] + cs.drop_first() =~= n + cs);
        lemma_digits_extend(cs.drop_first(), done, n + seq![cs[0]]);
    }
}

/// A text of digits alone is one integer token: a complete expression whose tree is a leaf
/// holding that integer, written with exactly those digits.
pub proof fn lemma_digits_are_one_integer(cs: Seq<char>, t: TokenTree)
    requires
        cs.len() > 0,
        forall|i: int| 0 <= i < cs.len() ==> is_digit(#[trigger] cs[i]),
    ensures
        lex(cs) == Ok::<Seq<Lexeme>, ParsingTokenError>(seq![Lexeme::Integer(cs)]),
        well_formed(seq![Lexeme::Integer(cs)]),
        validation_fault(seq![Lexeme::Integer(cs)]) is None,
        splits_into(seq![Lexeme::Integer(cs)], t) ==> t is Single && t->Single_0@ == Lexeme::Integer(
            cs,
        ),
{
    assert(is_digit(cs[0]));
    assert(merge(Lexeme::Unset, cs[0]) == Ok::<(Lexeme, Option<Lexeme>), ParsingTokenError>(
        (Lexeme::Integer(seq![cs[0]]), None),
    ));
    assert forall|i: int| 0 <= i < cs.drop_first().len() implies is_digit(#[trigger] cs.drop_first()[i]) by {
        assert(is_digit(cs[i + 1]));
    }
    lemma_digits_extend(cs.drop_first(), Seq::empty(), seq![cs[0]]);
    assert(seq![cs[0]] + cs.drop_first() =~= cs);
    assert(Seq::<Lexeme>::empty().push(Lexeme::Integer(cs)) =~= seq![Lexeme::Integer(cs)]);
    let ts = seq![Lexeme::Integer(cs)];
    lemma_depth_step(ts, 0);
    crate::grammar::lemma_validation_fault(ts);
}

/// The number of decimal points in `cs`.
pub open spec fn dot_count(cs: Seq<char>) -> nat
    decreases cs.len(),
{
    if cs.len() == 0 {
        0
    } else {
        (if cs[0] == '.' {
            1nat
        } else {
            0nat
        }) + dot_count(cs.drop_first())
    }
}

/// Characters that may stand in a numeral.
pub open spec fn numeral_chars(cs: Seq<char>) -> bool {
    forall|i: int| 0 <= i < cs.len() ==> is_digit(#[trigger] cs[i]) || cs[i] == '.'
}

proof fn lemma_numeral_dots(cs: Seq<char>, rest: Seq<char>, done: Seq<Lexeme>, cur: Lexeme)
    requires
        numeral_chars(cs),
        cur is Integer || cur is Float,
        dot_count(cs) + (if cur is Float {
            1nat
        } else {
            0nat
        }) >= 2,
    ensures
        lex_from(cs + rest, done, cur) == Err::<Seq<Lexeme>, ParsingTokenError>(
            ParsingTokenError::TooManyDots,
        ),
    decreases cs.len(),
{
    assert(cs.len() > 0);
    let x = cs[0];
    assert(is_digit(x) || x == '.');
    assert((cs + rest)[0] == x);
    assert((cs + rest).drop_first() =~= cs.drop_first() + rest);
    assert(numeral_chars(cs.drop_first())) by {
        assert forall|i: int| 0 <= i < cs.drop_first().len() implies is_digit(#[trigger] cs.drop_first()[i]) || cs.drop_first()[i] == '.' by {
            assert(is_digit(cs[i + 1]) || cs[i + 1] == '.');
        }
    }
    match merge(cur, x) {
        Err(_) => {},
        Ok((a, None)) => {
            lemma_numeral_dots(cs.drop_first(), rest, done, a);
        },
        Ok((a, Some(b))) => {},
    }
}

/// Reading `p` meets no error, and leaves no operator name under construction that names
/// no operation.
pub open spec fn reads_cleanly(p: Seq<char>) -> bool {
    match lex_state(p, Seq::empty(), Lexeme::Unset) {
        Ok((_, c)) => c is Incomplete ==> resolve(c->Incomplete_0) is Some,
        Err(_) => false,
    }
}

/// Two decimal points in one numeral: where the text in front reads cleanly, the numeral is
/// rejected with `TooManyDots`, whatever follows it.
pub proof fn lemma_two_dots_in_numeral(p: Seq<char>, num: Seq<char>, rest: Seq<char>)
    requires
        reads_cleanly(p),
        numeral_chars(num),
        dot_count(num) >= 2,
    ensures
        lex(p + num + rest) == Err::<Seq<Lexeme>, ParsingTokenError>(ParsingTokenError::TooManyDots),
{
    assert(p + num + rest =~= p + (num + rest));
    lemma_lex_append(p, num + rest, Seq::empty(), Lexeme::Unset);
    let (d, c) = lex_state(p, Seq::empty(), Lexeme::Unset)->Ok_0;
    if c is Integer || c is Float {
        lemma_numeral_dots(num, rest, d, c);
    } else {
        assert(num.len() > 0);
        let x = num[0];
        assert(is_digit(x) || x == '.');
        assert((num + rest)[0] == x);
        assert((num + rest).drop_first() =~= num.drop_first() + rest);
        assert(numeral_chars(num.drop_first())) by {
            assert forall|i: int| 0 <= i < num.drop_first().len() implies is_digit(#[trigger] num.drop_first()[i]) || num.drop_first()[i] == '.' by {
                assert(is_digit(num[i + 1]) || num[i + 1] == '.');
            }
        }
        let d1 = if is_subtraction(d, c, x) {
            d.push(Lexeme::Binary(BinaryOp::Sub))
        } else {
            d
        };
        let c1 = if is_subtraction(d, c, x) {
            Lexeme::Unset
        } else {
            c
        };
        match merge(c1, x) {
            Err(_) => {},
            Ok((a, None)) => {
                lemma_numeral_dots(num.drop_first(), rest, d1, a);
            },
            Ok((a, Some(b))) => {
                lemma_numeral_dots(num.drop_first(), rest, d1.push(a), b);
            },
        }
    }
}

/// Characters that occur in the name or symbol of some operation.
pub open spec fn in_operator_name(c: char) -> bool {
    c == '+' || c == '-' || c == '*' || c == '/' || c == ROOT_SIGN || c == 's' || c == 'q'
        || c == 'r' || c == 't' || c == 'c' || c == 'o' || c == 'i' || c == 'n' || c == 'a'
}

/// A character with no meaning in any token: no digit, dot, parenthesis, and in no
/// operation's name.
pub open spec fn meaningless(c: char) -> bool {
    !is_digit(c) && c != '.' && c != '(' && c != ')' && !in_operator_name(c)
}

pub open spec fn holds_meaningless(s: Seq<char>) -> bool {
    exists|j: int| 0 <= j < s.len() && meaningless(#[trigger] s[j])
}

/// Some token of `ts` is an operator name that was never resolved.
pub open spec fn has_unresolved(ts: Seq<Lexeme>) -> bool {
    exists|k: int| 0 <= k < ts.len() && #[trigger] ts[k] is Incomplete
}

proof fn lemma_meaningless_names_nothing(s: Seq<char>)
    requires
        holds_meaningless(s),
    ensures
        resolve(s) is None,
        s != seq!['-'],
{
    let j = choose|j: int| 0 <= j < s.len() && meaningless(#[trigger] s[j]);
    if s.len() == 1 {
        assert(j == 0);
    }
    if s == seq!['s', 'q', 'r', 't'] || s == seq!['a', 'c', 'o', 's'] {
        assert(j == 0 || j == 1 || j == 2 || j == 3);
    }
    if s == seq!['c', 'o', 's'] || s == seq!['s', 'i', 'n'] {
        assert(j == 0 || j == 1 || j == 2);
    }
}

/// Once a meaningless character is in the operator name under construction, tokenizing
/// fails with `UnknownOperation`, or ends with that name unresolved among the tokens.
proof fn lemma_poisoned_name(cs: Seq<char>, done: Seq<Lexeme>, s: Seq<char>)
    requires
        holds_meaningless(s),
    ensures
        lex_from(cs, done, Lexeme::Incomplete(s)) == Err::<Seq<Lexeme>, ParsingTokenError>(
            ParsingTokenError::UnknownOperation,
        ) || (lex_from(cs, done, Lexeme::Incomplete(s)) is Ok && has_unresolved(
            lex_from(cs, done, Lexeme::Incomplete(s))->Ok_0,
        )),
    decreases cs.len(),
{
    lemma_meaningless_names_nothing(s);
    if cs.len() == 0 {
        let ts = done.push(Lexeme::Incomplete(s));
        assert(ts[done.len() as int] is Incomplete);
    } else {
        let x = cs[0];
        match classify(x) {
            Lexeme::Incomplete(b) => {
                let j = choose|j: int| 0 <= j < s.len() && meaningless(#[trigger] s[j]);
                assert((s + b)[j] == s[j]);
                lemma_poisoned_name(cs.drop_first(), done, s + b);
            },
            _ => {},
        }
    }
}

/// A meaningless character makes tokenizing fail with `UnknownOperation`, or leaves an
/// unresolved operator name among the tokens, unless the text in front of it already holds
/// too many dots.
pub proof fn lemma_unknown_character(cs: Seq<char>, i: int)
    requires
        0 <= i < cs.len(),
        meaningless(cs[i]),
        lex(cs.subrange(0, i)) != Err::<Seq<Lexeme>, ParsingTokenError>(
            ParsingTokenError::TooManyDots,
        ),
    ensures
        lex(cs) == Err::<Seq<Lexeme>, ParsingTokenError>(ParsingTokenError::UnknownOperation) || (lex(
            cs,
        ) is Ok && has_unresolved(lex(cs)->Ok_0)),
{
    let p = cs.subrange(0, i);
    let q = cs.subrange(i, cs.len() as int);
    let e = Seq::<char>::empty();
    let x = cs[i];
    assert(p + q =~= cs);
    assert(p + e =~= p);
    lemma_lex_append(p, e, Seq::empty(), Lexeme::Unset);
    lemma_lex_append(p, q, Seq::empty(), Lexeme::Unset);
    assert(q[0] == x);
    if lex_state(p, Seq::empty(), Lexeme::Unset) is Ok {
        let (d, c) = lex_state(p, Seq::empty(), Lexeme::Unset)->Ok_0;
        assert(!is_subtraction(d, c, x));
        let rest = q.drop_first();
        match c {
            Lexeme::Incomplete(a) => {
                assert((a + seq![x])[a.len() as int] == x);
                lemma_poisoned_name(rest, d, a + seq![x]);
            },
            Lexeme::Unset => {
                assert(seq![x][0] == x);
                lemma_poisoned_name(rest, d, seq![x]);
            },
            _ => {
                assert(seq![x][0] == x);
                lemma_poisoned_name(rest, d.push(c), seq![x]);
            },
        }
    }
}

/// Each token in front of position `k` is resolved, may follow the one before it, and closes
/// no parenthesis that was not opened.
pub open spec fn rules_hold_before(ts: Seq<Lexeme>, k: int) -> bool {
    forall|j: int|
        0 <= j < k ==> !(ts[j] is Incomplete) && #[trigger] may_follow(previous(ts, j), ts[j])
            && depth_before(ts, j + 1) >= 0
}

/// Validation never accepts an unresolved operator name, and reports `UnknownOperation` for
/// it where the tokens before it break no rule of adjacency or balance.
pub proof fn lemma_unresolved_name_rejected(ts: Seq<Lexeme>, k: int)
    requires
        0 <= k < ts.len(),
        ts[k] is Incomplete,
    ensures
        validation_fault(ts) is Some,
        rules_hold_before(ts, k) ==> validation_fault(ts) == Some(
            ParsingTokenError::UnknownOperation,
        ),
{
    crate::grammar::lemma_validation_fault(ts);
    if well_formed(ts) {
        if k > 0 {
            assert(fits_after(ts[k - 1], ts[k]));
        }
    }
    if rules_hold_before(ts, k) {
        lemma_rules_reach(ts, 0, k);
    }
}

proof fn lemma_rules_reach(ts: Seq<Lexeme>, i: int, k: int)
    requires
        0 <= i <= k < ts.len(),
        ts[k] is Incomplete,
        rules_hold_before(ts, k),
    ensures
        rule_fault_from(ts, i) == Some(ParsingTokenError::UnknownOperation),
    decreases k - i,
{
    if i < k {
        assert(may_follow(previous(ts, i), ts[i]));
        lemma_rules_reach(ts, i + 1, k);
    }
}

} // verus!
