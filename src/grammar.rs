use vstd::prelude::*;

use crate::error::ParsingTokenError;
use crate::token::{grade_of, may_follow, Lexeme};

verus! {

/// Integers, floats and closing parentheses end an operand.
pub open spec fn ends_operand(t: Lexeme) -> bool {
    t is Integer || t is Float || t is Close
}

/// Integers, floats, opening parentheses and unary operations start an operand.
pub open spec fn starts_operand(t: Lexeme) -> bool {
    t is Integer || t is Float || t is Open || t is Unary
}

/// After an operand comes an operator or a closing parenthesis; after anything else comes
/// the start of an operand.
pub open spec fn fits_after(prev: Lexeme, next: Lexeme) -> bool {
    if ends_operand(prev) {
        next is Binary || next is Close
    } else if prev is Open || prev is Unary || prev is Binary {
        starts_operand(next)
    } else {
        false
    }
}

/// How a token changes the parenthesis depth.
pub open spec fn paren_delta(t: Lexeme) -> int {
    if t is Open {
        1
    } else if t is Close {
        -1
    } else {
        0
    }
}

/// Parenthesis depth in front of the token at `i`: opened minus closed before it.
pub open spec fn depth_before(ts: Seq<Lexeme>, i: int) -> int
    decreases i,
{
    if i <= 0 {
        0
    } else {
        depth_before(ts, i - 1) + paren_delta(ts[i - 1])
    }
}

/// A complete expression: operands and binary operators alternate, unary operations and
/// opening parentheses come in front of an operand, and parentheses are balanced.
pub open spec fn well_formed(ts: Seq<Lexeme>) -> bool {
    &&& ts.len() > 0
    &&& starts_operand(ts[0])
    &&& ends_operand(ts.last())
    &&& forall|i: int| 0 < i < ts.len() ==> #[trigger] fits_after(ts[i - 1], ts[i])
    &&& forall|i: int| 0 <= i <= ts.len() ==> #[trigger] depth_before(ts, i) >= 0
    &&& depth_before(ts, ts.len() as int) == 0
}

/// The token in front of position `i`, or `Unset` at the start.
pub open spec fn previous(ts: Seq<Lexeme>, i: int) -> Lexeme {
    if i == 0 {
        Lexeme::Unset
    } else {
        ts[i - 1]
    }
}

/// Whether the token at `i` may stand where it stands, as far as its left side shows.
pub open spec fn fits_at(ts: Seq<Lexeme>, i: int) -> bool {
    if i == 0 {
        starts_operand(ts[i])
    } else {
        fits_after(ts[i - 1], ts[i])
    }
}

/// The first fault that the rules of adjacency and balance find from position `i` on: an
/// operator name left unresolved, a token that may not follow the one before it, a
/// parenthesis closed that was not opened, or, at the end, one left open.
pub open spec fn rule_fault_from(ts: Seq<Lexeme>, i: int) -> Option<ParsingTokenError>
    decreases ts.len() - i,
{
    if i < 0 || i >= ts.len() {
        if depth_before(ts, ts.len() as int) != 0 {
            Some(ParsingTokenError::ParenthesisOpenedWithoutClosing)
        } else {
            None
        }
    } else if ts[i] is Incomplete {
        Some(ParsingTokenError::UnknownOperation)
    } else if !may_follow(previous(ts, i), ts[i]) {
        Some(ParsingTokenError::InvalidSequence)
    } else if depth_before(ts, i + 1) < 0 {
        Some(ParsingTokenError::ParenthesisClosedWithoutOpening)
    } else {
        rule_fault_from(ts, i + 1)
    }
}

/// The first place from position `i` on where the tokens stop forming one complete
/// expression.
pub open spec fn shape_fault_from(ts: Seq<Lexeme>, i: int) -> Option<ParsingTokenError>
    decreases ts.len() - i,
{
    if i < 0 || i >= ts.len() {
        if !ends_operand(ts.last()) {
            Some(ParsingTokenError::InvalidSequence)
        } else {
            None
        }
    } else if !fits_at(ts, i) {
        Some(ParsingTokenError::InvalidSequence)
    } else {
        shape_fault_from(ts, i + 1)
    }
}

/// The error with which validation rejects `ts`, if it does: an empty sequence first, then
/// the first fault of adjacency and balance, and only where there is none, a sequence that
/// is not one complete expression.
pub open spec fn validation_fault(ts: Seq<Lexeme>) -> Option<ParsingTokenError> {
    if ts.len() == 0 {
        Some(ParsingTokenError::Empty)
    } else if rule_fault_from(ts, 0) is Some {
        rule_fault_from(ts, 0)
    } else {
        shape_fault_from(ts, 0)
    }
}

proof fn lemma_rules_hold(ts: Seq<Lexeme>, i: int)
    requires
        0 <= i <= ts.len(),
        rule_fault_from(ts, i) is None,
    ensures
        forall|j: int| i <= j < ts.len() ==> #[trigger] depth_before(ts, j + 1) >= 0,
        depth_before(ts, ts.len() as int) == 0,
    decreases ts.len() - i,
{
    if i < ts.len() {
        lemma_rules_hold(ts, i + 1);
    }
}

proof fn lemma_shape_holds(ts: Seq<Lexeme>, i: int)
    requires
        0 <= i <= ts.len(),
        shape_fault_from(ts, i) is None,
    ensures
        forall|j: int| i <= j < ts.len() ==> #[trigger] fits_at(ts, j),
        ends_operand(ts.last()),
    decreases ts.len() - i,
{
    if i < ts.len() {
        lemma_shape_holds(ts, i + 1);
    }
}

proof fn lemma_well_formed_no_fault(ts: Seq<Lexeme>, i: int)
    requires
        0 <= i <= ts.len(),
        well_formed(ts),
    ensures
        rule_fault_from(ts, i) is None,
        shape_fault_from(ts, i) is None,
    decreases ts.len() - i,
{
    if i < ts.len() {
        lemma_well_formed_no_fault(ts, i + 1);
        assert(depth_before(ts, i + 1) >= 0);
        if i > 0 {
            assert(fits_after(ts[i - 1], ts[i]));
        }
    }
}

/// Validation accepts exactly the well-formed sequences.
pub proof fn lemma_validation_fault(ts: Seq<Lexeme>)
    ensures
        (validation_fault(ts) is None) <==> well_formed(ts),
{
    if ts.len() > 0 {
        if validation_fault(ts) is None {
            lemma_rules_hold(ts, 0);
            lemma_shape_holds(ts, 0);
            assert(fits_at(ts, 0));
            assert forall|j: int| 0 < j < ts.len() implies #[trigger] fits_after(ts[j - 1], ts[j]) by {
                assert(fits_at(ts, j));
            }
            assert forall|j: int| 0 <= j <= ts.len() implies #[trigger] depth_before(ts, j) >= 0 by {
                if j > 0 {
                    assert(depth_before(ts, (j - 1) + 1) >= 0);
                }
            }
        }
        if well_formed(ts) {
            lemma_well_formed_no_fault(ts, 0);
        }
    }
}

/// The whole sequence stands in one pair of parentheses: it opens first, closes last, and
/// the first parenthesis stays open until the last token.
pub open spec fn wrapped(ts: Seq<Lexeme>) -> bool {
    &&& ts.len() >= 2
    &&& ts[0] is Open
    &&& ts.last() is Close
    &&& forall|i: int| 1 <= i < ts.len() ==> #[trigger] depth_before(ts, i) >= 1
}

/// The grade of the token at `i`, with the parenthesis depth in front of it.
pub open spec fn grade_at(ts: Seq<Lexeme>, i: int) -> Option<nat> {
    if depth_before(ts, i) >= 0 {
        grade_of(ts[i], depth_before(ts, i) as nat)
    } else {
        None
    }
}

/// `k` holds the operator of lowest grade. Among binary operators of that grade the last one
/// is taken, so that operators of equal precedence associate to the left; among unary
/// operations the first one, which applies to all that follows it.
pub open spec fn is_split_point(ts: Seq<Lexeme>, k: int) -> bool {
    &&& 0 <= k < ts.len()
    &&& grade_at(ts, k) is Some
    &&& forall|j: int|
        0 <= j < ts.len() && #[trigger] grade_at(ts, j) is Some ==> grade_at(ts, k)->0 <= grade_at(
            ts,
            j,
        )->0
    &&& ts[k] is Binary ==> forall|j: int|
        k < j < ts.len() && #[trigger] grade_at(ts, j) is Some ==> grade_at(ts, k)->0 < grade_at(
            ts,
            j,
        )->0
    &&& !(ts[k] is Binary) ==> forall|j: int|
        0 <= j < k && #[trigger] grade_at(ts, j) is Some ==> grade_at(ts, k)->0 < grade_at(
            ts,
            j,
        )->0
}

/// Binary operators and unary operations never share a grade.
pub proof fn lemma_grade_kind(ts: Seq<Lexeme>, i: int, j: int)
    requires
        0 <= i < ts.len(),
        0 <= j < ts.len(),
        grade_at(ts, i) is Some,
        grade_at(ts, j) is Some,
        grade_at(ts, i) == grade_at(ts, j),
    ensures
        (ts[i] is Binary) == (ts[j] is Binary),
{
    let di = depth_before(ts, i);
    let dj = depth_before(ts, j);
    if ts[i] is Binary && !(ts[j] is Binary) {
        assert(ts[j] is Unary);
        assert(false) by (nonlinear_arith)
            requires
                (1 + di * 1_000_000 == 4 + dj * 1_000_000) || (2 + di * 1_000_000 == 4 + dj
                    * 1_000_000),
        ;
    } else if !(ts[i] is Binary) && ts[j] is Binary {
        assert(ts[i] is Unary);
        assert(false) by (nonlinear_arith)
            requires
                (1 + dj * 1_000_000 == 4 + di * 1_000_000) || (2 + dj * 1_000_000 == 4 + di
                    * 1_000_000),
        ;
    }
}

/// The deepest parenthesis nesting at which an operator's grade fits a machine word.
pub open spec fn max_graded_depth() -> int {
    (usize::MAX - 4) / 1_000_000
}

/// An operator nested deeper than `max_graded_depth` grades above every operator that is
/// nested no deeper.
pub proof fn lemma_deeper_grades_higher(ts: Seq<Lexeme>, j: int, k: int)
    requires
        0 <= j < ts.len(),
        0 <= k < ts.len(),
        grade_at(ts, j) is Some,
        grade_at(ts, k) is Some,
        depth_before(ts, j) > max_graded_depth(),
        depth_before(ts, k) <= max_graded_depth(),
    ensures
        grade_at(ts, k)->0 < grade_at(ts, j)->0,
{
    assert(grade_at(ts, j)->0 >= 1 + (max_graded_depth() + 1) * 1_000_000);
    assert(grade_at(ts, k)->0 <= 4 + max_graded_depth() * 1_000_000);
}

/// There is at most one split point.
pub proof fn lemma_split_point_unique(ts: Seq<Lexeme>, k1: int, k2: int)
    requires
        is_split_point(ts, k1),
        is_split_point(ts, k2),
    ensures
        k1 == k2,
{
    assert(grade_at(ts, k1) is Some);
    assert(grade_at(ts, k2) is Some);
    lemma_grade_kind(ts, k1, k2);
}

/// The depth inside a part of a sequence is the depth in the whole, less the depth at
/// the part's start.
pub proof fn lemma_depth_part(ts: Seq<Lexeme>, s: int, e: int, i: int)
    requires
        0 <= s <= e <= ts.len(),
        0 <= i <= e - s,
    ensures
        depth_before(ts.subrange(s, e), i) == depth_before(ts, s + i) - depth_before(ts, s),
    decreases i,
{
    if i > 0 {
        lemma_depth_part(ts, s, e, i - 1);
    }
}

/// A part that starts and ends an operand, and that closes what it opens without closing
/// anything opened before it, is itself a complete expression.
pub proof fn lemma_part_well_formed(ts: Seq<Lexeme>, s: int, e: int)
    requires
        well_formed(ts),
        0 <= s < e <= ts.len(),
        starts_operand(ts[s]),
        ends_operand(ts[e - 1]),
        forall|i: int| s <= i <= e ==> #[trigger] depth_before(ts, i) >= depth_before(ts, s),
        depth_before(ts, e) == depth_before(ts, s),
    ensures
        well_formed(ts.subrange(s, e)),
{
    let p = ts.subrange(s, e);
    assert forall|i: int| 0 < i < p.len() implies #[trigger] fits_after(p[i - 1], p[i]) by {
        assert(fits_after(ts[s + i - 1], ts[s + i]));
    }
    assert forall|i: int| 0 <= i <= p.len() implies #[trigger] depth_before(p, i) >= 0 by {
        lemma_depth_part(ts, s, e, i);
        assert(depth_before(ts, s + i) >= depth_before(ts, s));
    }
    lemma_depth_part(ts, s, e, e - s);
}

/// One step of the parenthesis depth.
pub proof fn lemma_depth_step(ts: Seq<Lexeme>, i: int)
    requires
        0 <= i < ts.len(),
    ensures
        depth_before(ts, i + 1) == depth_before(ts, i) + paren_delta(ts[i]),
{
}

/// Walking left from a point of depth zero inside a sequence that opens with a parenthesis
/// reaches a binary operator at depth zero.
proof fn lemma_binary_left_of(ts: Seq<Lexeme>, i: int)
    requires
        well_formed(ts),
        ts[0] is Open,
        1 <= i < ts.len(),
        depth_before(ts, i) == 0,
    ensures
        exists|j: int| 0 <= j < ts.len() && #[trigger] ts[j] is Binary && depth_before(ts, j) == 0,
    decreases i,
{
    lemma_depth_step(ts, i - 1);
    lemma_depth_step(ts, i);
    assert(depth_before(ts, i + 1) >= 0);
    assert(fits_after(ts[i - 1], ts[i]));
    if i == 1 {
        lemma_depth_step(ts, 0);
    } else if ts[i - 1] is Binary {
        assert(ts[i - 1] is Binary && depth_before(ts, i - 1) == 0);
    } else if ts[i - 1] is Unary {
        lemma_binary_left_of(ts, i - 1);
    } else if ts[i] is Binary {
        assert(ts[i] is Binary && depth_before(ts, i) == 0);
    } else {
        assert(depth_before(ts, i - 1) >= 0);
    }
}

/// A complete expression of more than one token, not wrapped in one pair of parentheses,
/// has a binary operator outside all parentheses, or opens with a unary operation.
pub proof fn lemma_has_split(ts: Seq<Lexeme>)
    requires
        well_formed(ts),
        ts.len() > 1,
        !wrapped(ts),
    ensures
        ts[0] is Unary || exists|j: int|
            0 <= j < ts.len() && #[trigger] ts[j] is Binary && depth_before(ts, j) == 0,
{
    lemma_depth_step(ts, 0);
    lemma_depth_step(ts, 1);
    assert(fits_after(ts[0], ts[1]));
    assert(depth_before(ts, 2) >= 0);
    if ts[0] is Integer || ts[0] is Float {
        assert(ts[1] is Binary && depth_before(ts, 1) == 0);
    } else if ts[0] is Open {
        let n = ts.len() as int;
        lemma_depth_step(ts, n - 1);
        if ts.last() is Close {
            let i = choose|i: int| 1 <= i < n && !(#[trigger] depth_before(ts, i) >= 1);
            assert(depth_before(ts, i) >= 0);
            lemma_binary_left_of(ts, i);
        } else {
            lemma_binary_left_of(ts, n - 1);
        }
    }
}

} // verus!
