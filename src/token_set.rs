use vstd::prelude::*;

use crate::binary_operations::BinaryOp;
use crate::error::ParsingTokenError;
use crate::grammar::{
    depth_before, ends_operand, fits_after, grade_at, is_split_point, lemma_deeper_grades_higher,
    lemma_depth_step, lemma_grade_kind, lemma_has_split, lemma_part_well_formed,
    lemma_split_point_unique, lemma_validation_fault, max_graded_depth, previous, rule_fault_from,
    shape_fault_from, starts_operand, validation_fault, well_formed, wrapped,
};
use crate::token::{may_follow, merge, Lexeme, Token};
use crate::token_tree::{splits_into, TokenTree};

verus! {

/// A sequence of tokens; `T` says whether it has been checked (`Valid`) or not (`Invalid`).
/// Outside this crate the tag cannot be written: a `TokenSet<Valid>` comes only from `validate`.
#[derive(Debug)]
pub struct TokenSet<T>(pub Vec<Token>, pub(crate) std::marker::PhantomData<T>);

/// Marks a token sequence that has not been checked.
#[derive(Debug)]
pub struct Invalid;

/// Marks a token sequence that has passed `validate`.
#[derive(Debug)]
pub struct Valid;

/// What each token of `ts` stands for.
pub open spec fn lexemes(ts: Seq<Token>) -> Seq<Lexeme> {
    ts.map_values(|t: Token| t@)
}

impl<T> TokenSet<T> {
    /// What the tokens of this sequence stand for.
    pub open(crate) spec fn tokens(&self) -> Seq<Lexeme> {
        lexemes(self.0@)
    }
}

/// Whether a numeral starts with the character `c`.
pub open spec fn starts_numeral(c: char) -> bool {
    ('0' <= c && c <= '9') || c == '.'
}

/// A pending `-` right after an operand subtracts; it is not the sign of the next numeral.
pub open spec fn is_subtraction(done: Seq<Lexeme>, cur: Lexeme, c: char) -> bool {
    cur == Lexeme::Incomplete(seq!['-']) && done.len() > 0 && ends_operand(done.last())
        && starts_numeral(c)
}

/// The tokens once the input ends: the token still under construction, if any, is
/// appended as it stands.
pub open spec fn finish(done: Seq<Lexeme>, cur: Lexeme) -> Seq<Lexeme> {
    if cur is Unset {
        done
    } else {
        done.push(cur)
    }
}

/// Tokenizing `cs`, when the tokens `done` are closed and `cur` is under construction.
pub open spec fn lex_from(cs: Seq<char>, done: Seq<Lexeme>, cur: Lexeme) -> Result<
    Seq<Lexeme>,
    ParsingTokenError,
>
    decreases cs.len(),
{
    if cs.len() == 0 {
        Ok(finish(done, cur))
    } else {
        let c = cs[0];
        let done1 = if is_subtraction(done, cur, c) {
            done.push(Lexeme::Binary(BinaryOp::Sub))
        } else {
            done
        };
        let cur1 = if is_subtraction(done, cur, c) {
            Lexeme::Unset
        } else {
            cur
        };
        match merge(cur1, c) {
            Err(e) => Err(e),
            Ok((a, None)) => lex_from(cs.drop_first(), done1, a),
            Ok((a, Some(b))) => lex_from(cs.drop_first(), done1.push(a), b),
        }
    }
}

/// The tokens of the text `cs`, or the first error met reading it from the left.
pub open spec fn lex(cs: Seq<char>) -> Result<Seq<Lexeme>, ParsingTokenError> {
    lex_from(cs, Seq::empty(), Lexeme::Unset)
}

pub(crate) fn chars_of(s: &str) -> (r: Vec<char>)
    ensures
        r@ == s@,
{
    let mut v: Vec<char> = Vec::new();
    for c in it: s.chars()
        invariant
            v@ == it.seq().take(it.index() as int),
    {
        v.push(c);
    }
    v
}

impl TokenSet<Invalid> {
    /// Splits the text `s` into tokens.
    pub fn new(s: &str) -> (r: Result<TokenSet<Invalid>, ParsingTokenError>)
        ensures
            match r {
                Ok(set) => lex(s@) == Ok::<Seq<Lexeme>, ParsingTokenError>(set.tokens()),
                Err(e) => lex(s@) == Err::<Seq<Lexeme>, ParsingTokenError>(e),
            },
    {
        let cs = chars_of(s);
        TokenSet::from_chars(&cs)
    }

    /// Splits the characters `cs` into tokens, one character at a time: each is merged into
    /// the token under construction, which is closed when the character cannot join it.
    pub fn from_chars(cs: &Vec<char>) -> (r: Result<TokenSet<Invalid>, ParsingTokenError>)
        ensures
            match r {
                Ok(set) => lex(cs@) == Ok::<Seq<Lexeme>, ParsingTokenError>(set.tokens()),
                Err(e) => lex(cs@) == Err::<Seq<Lexeme>, ParsingTokenError>(e),
            },
    {
        let mut result: Vec<Token> = Vec::new();
        let mut current_token = Token::Unset;
        let mut i: usize = 0;
        assert(lexemes(result@) =~= Seq::<Lexeme>::empty());
        assert(cs@.subrange(0, cs@.len() as int) == cs@);
        while i < cs.len()
            invariant
                i <= cs.len(),
                lex_from(cs@.subrange(i as int, cs@.len() as int), lexemes(result@), current_token@)
                    == lex(cs@),
            decreases cs.len() - i,
        {
            let ghost rest = cs@.subrange(i as int, cs@.len() as int);
            assert(rest.drop_first() == cs@.subrange(i + 1, cs@.len() as int));
            let c = cs[i];
            let subtraction = match &current_token {
                Token::Incomplete(a) => {
                    let after_operand = result.len() > 0 && match &result[result.len() - 1] {
                        Token::Integer(_) | Token::Float(_) | Token::ParenthesisClose => true,
                        _ => false,
                    };
                    a.len() == 1 && a[0] == '-' && after_operand && (('0' <= c && c <= '9') || c
                        == '.')
                },
                _ => false,
            };
            proof {
                let done = lexemes(result@);
                if subtraction {
                    let a = current_token->Incomplete_0@;
                    assert(a =~= seq!['-']);
                    assert(done.last() == result@.last()@);
                }
                if is_subtraction(done, current_token@, c) {
                    assert(done.last() == result@.last()@);
                }
                assert(subtraction == is_subtraction(done, current_token@, c));
            }
            if subtraction {
                proof {
                    assert(lexemes(result@.push(Token::BinaryOperation(BinaryOp::Sub))) =~= lexemes(
                        result@,
                    ).push(Lexeme::Binary(BinaryOp::Sub)));
                }
                result.push(Token::BinaryOperation(BinaryOp::Sub));
                current_token = Token::Unset;
            }
            let ghost before = result@;
            current_token = match current_token.digest(c) {
                Err(e) => return Err(e),
                Ok((old, Some(new))) => {
                    result.push(old);
                    proof {
                        assert(lexemes(result@) =~= lexemes(before).push(old@));
                    }
                    new
                },
                Ok((old, None)) => old,
            };
            i = i + 1;
        }
        assert(cs@.subrange(i as int, cs@.len() as int).len() == 0);
        if !current_token.in_none() {
            let ghost before = result@;
            result.push(current_token);
            assert(lexemes(result@) =~= lexemes(before).push(current_token@));
        }
        Ok(TokenSet(result, std::marker::PhantomData::<Invalid>))
    }

    /// The first fault of adjacency or balance, in one pass from the left.
    fn rule_fault(&self) -> (r: Option<ParsingTokenError>)
        requires
            self.0.len() > 0,
        ensures
            r == rule_fault_from(self.tokens(), 0),
    {
        let ghost ts = self.tokens();
        let n = self.0.len();
        let mut depth: usize = 0;
        let mut i: usize = 0;
        while i < n
            invariant
                n == self.0.len(),
                ts == self.tokens(),
                ts.len() == n,
                i <= n,
                depth as int == depth_before(ts, i as int),
                depth <= i,
                rule_fault_from(ts, i as int) == rule_fault_from(ts, 0),
            decreases n - i,
        {
            let token = &self.0[i];
            assert(ts[i as int] == token@);
            if matches!(token, Token::Incomplete(_)) {
                return Some(ParsingTokenError::UnknownOperation);
            }
            let fits_left = if i == 0 {
                Token::Unset.can_be_followed_by(token)
            } else {
                self.0[i - 1].can_be_followed_by(token)
            };
            proof {
                if i > 0 {
                    assert(ts[i - 1] == self.0@[i - 1]@);
                }
                assert(fits_left == may_follow(previous(ts, i as int), ts[i as int]));
            }
            if !fits_left {
                return Some(ParsingTokenError::InvalidSequence);
            }
            match token {
                Token::ParenthesisOpen => {
                    depth = depth + 1;
                },
                Token::ParenthesisClose => {
                    if depth == 0 {
                        return Some(ParsingTokenError::ParenthesisClosedWithoutOpening);
                    }
                    depth = depth - 1;
                },
                _ => {},
            }
            i = i + 1;
        }
        if depth != 0 {
            return Some(ParsingTokenError::ParenthesisOpenedWithoutClosing);
        }
        None
    }

    /// Whether the tokens fail to form one complete expression.
    fn shape_fault(&self) -> (r: Option<ParsingTokenError>)
        requires
            self.0.len() > 0,
        ensures
            r == shape_fault_from(self.tokens(), 0),
    {
        let ghost ts = self.tokens();
        let n = self.0.len();
        let mut i: usize = 0;
        while i < n
            invariant
                n == self.0.len(),
                ts == self.tokens(),
                ts.len() == n,
                i <= n,
                shape_fault_from(ts, i as int) == shape_fault_from(ts, 0),
            decreases n - i,
        {
            let token = &self.0[i];
            assert(ts[i as int] == token@);
            let fits = if i == 0 {
                token.starts_operand()
            } else {
                assert(ts[i - 1] == self.0@[i - 1]@);
                self.0[i - 1].fits_before(token)
            };
            if !fits {
                return Some(ParsingTokenError::InvalidSequence);
            }
            i = i + 1;
        }
        let last = &self.0[n - 1];
        assert(ts.last() == last@);
        match last {
            Token::Integer(_) | Token::Float(_) | Token::ParenthesisClose => None,
            _ => Some(ParsingTokenError::InvalidSequence),
        }
    }

    /// The error with which validation rejects these tokens, if any.
    fn first_fault(&self) -> (r: Option<ParsingTokenError>)
        ensures
            r == validation_fault(self.tokens()),
    {
        if self.0.len() == 0 {
            return Some(ParsingTokenError::Empty);
        }
        match self.rule_fault() {
            Some(e) => Some(e),
            None => self.shape_fault(),
        }
    }

    /// Checks the tokens and marks them valid.
    ///
    /// The rules of adjacency and balance run first, in one pass from the left, and the
    /// first fault they meet decides the error: an unresolved operator name
    /// (`UnknownOperation`), a token that may not follow the one before it
    /// (`InvalidSequence`), a parenthesis closed that was not opened, or one left open. An
    /// empty sequence is `Empty`. Only where those rules find nothing is the sequence also
    /// required to be one complete expression, which splitting needs: operands and binary
    /// operators alternate, and it ends with an operand (`InvalidSequence` otherwise). These
    /// rules alone would admit sequences that cannot be split, such as `1 +` or `( )`; such
    /// a sequence is rejected here, though the adjacency and balance rules accept it.
    pub fn validate(self) -> (r: Result<TokenSet<Valid>, ParsingTokenError>)
        ensures
            match r {
                Ok(set) => set.tokens() == self.tokens() && validation_fault(self.tokens()) is None,
                Err(e) => validation_fault(self.tokens()) == Some(e),
            },
            r is Ok <==> well_formed(self.tokens()),
    {
        proof {
            lemma_validation_fault(self.tokens());
        }
        match self.first_fault() {
            Some(e) => Err(e),
            None => Ok(TokenSet(self.0, std::marker::PhantomData::<Valid>)),
        }
    }
}

/// Whether the tokens stand in one pair of parentheses that opens first and closes last.
fn is_wrapped(v: &Vec<Token>) -> (r: bool)
    requires
        well_formed(lexemes(v@)),
    ensures
        r == wrapped(lexemes(v@)),
{
    let ghost ts = lexemes(v@);
    let n = v.len();
    if n < 2 || !matches!(v[0], Token::ParenthesisOpen) || !matches!(v[n - 1], Token::ParenthesisClose) {
        proof {
            if n >= 2 {
                assert(ts[0] == v@[0]@);
                assert(ts.last() == v@[n - 1]@);
            }
        }
        return false;
    }
    assert(ts[0] == v@[0]@);
    assert(ts.last() == v@[n - 1]@);
    let mut depth: usize = 0;
    let mut i: usize = 0;
    while i + 1 < n
        invariant
            ts == lexemes(v@),
            n == v.len(),
            well_formed(ts),
            n >= 2,
            ts[0] is Open,
            ts.last() is Close,
            i + 1 <= n,
            depth <= i,
            depth as int == depth_before(ts, i as int),
            forall|j: int| 1 <= j <= i ==> #[trigger] depth_before(ts, j) >= 1,
        decreases n - i,
    {
        assert(ts[i as int] == v@[i as int]@);
        assert(depth_before(ts, i + 1) >= 0);
        match &v[i] {
            Token::ParenthesisOpen => {
                depth = depth + 1;
            },
            Token::ParenthesisClose => {
                depth = depth - 1;
            },
            _ => {},
        }
        i = i + 1;
        if depth == 0 {
            return false;
        }
    }
    true
}

/// The position of the operator at which the tokens split.
fn split_point(v: &Vec<Token>) -> (k: usize)
    requires
        well_formed(lexemes(v@)),
        v.len() > 1,
        !wrapped(lexemes(v@)),
    ensures
        is_split_point(lexemes(v@), k as int),
        (lexemes(v@)[k as int] is Binary && depth_before(lexemes(v@), k as int) == 0) || (
        lexemes(v@)[k as int] is Unary && k == 0),
{
    let ghost ts = lexemes(v@);
    let n = v.len();
    let mut depth: usize = 0;
    let mut lowest: usize = usize::MAX;
    let mut lowest_index: usize = 0;
    let mut found = false;
    let limit: usize = (usize::MAX - 4) / 1_000_000;
    let mut i: usize = 0;
    while i < n
        invariant
            ts == lexemes(v@),
            n == v.len(),
            well_formed(ts),
            i <= n,
            depth <= i,
            depth as int == depth_before(ts, i as int),
            limit == (usize::MAX - 4) / 1_000_000,
            limit as int == max_graded_depth(),
            !found ==> lowest == usize::MAX,
            found ==> lowest_index < i && grade_at(ts, lowest_index as int) == Some(lowest as nat)
                && depth_before(ts, lowest_index as int) <= max_graded_depth(),
            forall|j: int|
                0 <= j < i && #[trigger] grade_at(ts, j) is Some && depth_before(ts, j)
                    <= max_graded_depth() ==> found && lowest <= grade_at(ts, j)->0,
            found && ts[lowest_index as int] is Binary ==> forall|j: int|
                lowest_index < j < i && #[trigger] grade_at(ts, j) is Some && depth_before(ts, j)
                    <= max_graded_depth() ==> lowest < grade_at(ts, j)->0,
            found && !(ts[lowest_index as int] is Binary) ==> forall|j: int|
                0 <= j < lowest_index && #[trigger] grade_at(ts, j) is Some && depth_before(ts, j)
                    <= max_graded_depth() ==> lowest < grade_at(ts, j)->0,
        decreases n - i,
    {
        let token = &v[i];
        assert(ts[i as int] == token@);
        assert(depth_before(ts, i + 1) >= 0);
        assert(depth_before(ts, i as int) >= 0);
        match token {
            Token::ParenthesisOpen => {
                depth = depth + 1;
            },
            Token::ParenthesisClose => {
                depth = depth - 1;
            },
            _ => {
                if depth <= limit {
                    match token.get_grade(depth) {
                        Some(g) => {
                            let binary = matches!(token, Token::BinaryOperation(_));
                            proof {
                                if found && g == lowest {
                                    lemma_grade_kind(ts, i as int, lowest_index as int);
                                }
                            }
                            if g < lowest || (g == lowest && binary) {
                                lowest = g;
                                lowest_index = i;
                                found = true;
                            }
                        },
                        None => {},
                    }
                }
            },
        }
        i = i + 1;
    }
    proof {
        lemma_has_split(ts);
        if ts[0] is Unary {
            assert(grade_at(ts, 0) is Some);
        } else {
            let j = choose|j: int| 0 <= j < ts.len() && #[trigger] ts[j] is Binary && depth_before(ts, j) == 0;
            assert(grade_at(ts, j) is Some);
        }
        assert(found);
        let k = lowest_index as int;
        assert forall|j: int|
            0 <= j < ts.len() && #[trigger] grade_at(ts, j) is Some && depth_before(ts, j)
                > max_graded_depth() implies grade_at(ts, k)->0 < grade_at(ts, j)->0 by {
            lemma_deeper_grades_higher(ts, j, k);
        }
        assert(is_split_point(ts, k));
        if ts[0] is Unary {
            assert(grade_at(ts, 0) == Some(4nat));
            if !(ts[k] is Binary && depth_before(ts, k) == 0) {
                assert(grade_at(ts, k)->0 <= 4);
                assert(k == 0);
            }
        } else {
            let j = choose|j: int| 0 <= j < ts.len() && #[trigger] ts[j] is Binary && depth_before(ts, j) == 0;
            assert(grade_at(ts, j) is Some);
            assert(grade_at(ts, j)->0 <= 2);
        }
    }
    lowest_index
}

impl TokenSet<Valid> {
    /// Builds the expression tree: the loosest-binding operator becomes the root, and the
    /// tokens on either side of it become its operands.
    pub fn split(self) -> (r: TokenTree)
        requires
            well_formed(self.tokens()),
        ensures
            splits_into(self.tokens(), r),
        decreases self.tokens().len(),
    {
        let ghost ts = self.tokens();
        let mut v = self.0;
        let n = v.len();
        if n == 1 {
            let t = v.pop().unwrap();
            return TokenTree::Single(t);
        }
        if is_wrapped(&v) {
            v.pop();
            v.remove(0);
            proof {
                assert(lexemes(v@) =~= ts.subrange(1, n - 1));
                assert(fits_after(ts[1 - 1], ts[1]));
                assert(fits_after(ts[n - 2], ts[n - 1]));
                assert(depth_before(ts, n as int) == depth_before(ts, n - 1) - 1);
                lemma_depth_step(ts, 0);
                assert forall|i: int| 1 <= i <= n - 1 implies #[trigger] depth_before(ts, i) >= depth_before(ts, 1) by {
                    assert(depth_before(ts, i) >= 1);
                }
                lemma_part_well_formed(ts, 1, n - 1);
            }
            return TokenSet(v, std::marker::PhantomData::<Valid>).split();
        }
        let k = split_point(&v);
        let right = v.split_off(k + 1);
        let op = v.pop().unwrap();
        proof {
            assert(op@ == ts[k as int]);
            assert(lexemes(right@) =~= ts.subrange(k + 1, n as int));
            assert(lexemes(v@) =~= ts.subrange(0, k as int));
            if ts[k as int] is Binary {
                assert(!starts_operand(ts[k as int]));
                assert(fits_after(ts[k - 1], ts[k as int]));
                assert(fits_after(ts[k as int], ts[k + 1]));
                lemma_part_well_formed(ts, 0, k as int);
            } else {
                assert(fits_after(ts[0], ts[1]));
            }
            assert(depth_before(ts, k + 1) == 0);
            lemma_part_well_formed(ts, k + 1, n as int);
            lemma_split_point_unique(ts, k as int, choose|j: int| is_split_point(ts, j));
        }
        let right_tree = TokenSet(right, std::marker::PhantomData::<Valid>).split();
        if matches!(op, Token::BinaryOperation(_)) {
            let left_tree = TokenSet(v, std::marker::PhantomData::<Valid>).split();
            TokenTree::BinaryOperation(Box::new(left_tree), op, Box::new(right_tree))
        } else {
            TokenTree::UnaryOperation(op, Box::new(right_tree))
        }
    }
}

} // verus!
