use calculator::binary_operations::BinaryOp;
use calculator::error::ParsingTokenError;
use calculator::token::Token;
use calculator::token_set::TokenSet;
use calculator::unary_operations::UnaryOp;

fn text(t: &Token) -> String {
    match t {
        Token::Integer(s) | Token::Float(s) | Token::Incomplete(s) => s.iter().collect(),
        _ => String::new(),
    }
}

#[test]
fn test_invalid_floats() {
    let tokens = vec!["12.2.", "13.."];

    tokens
        .into_iter()
        .map(TokenSet::new)
        .for_each(|res| {
            let err = res.err().unwrap();
            assert_eq!(err, ParsingTokenError::TooManyDots);
        });
}

#[test]
fn test_invalid_tokens() {
    let tokens = vec!["12$12", "a", "12b", "&"];

    tokens
        .into_iter()
        .map(|s| TokenSet::new(s).and_then(|set| set.validate()))
        .for_each(|res| {
            let err = res.err().unwrap();
            assert_eq!(err, ParsingTokenError::UnknownOperation);
        });
}

#[test]
fn test_valid_floats() {
    let tokens = vec!["12.12", ".12", "12.", "0.0"];

    tokens
        .into_iter()
        .map(TokenSet::new)
        .for_each(|res| {
            assert!(res.is_ok());
            res.unwrap().0.into_iter().for_each(|token| {
                assert!(matches!(token, Token::Float { .. }));
            })
        });
}

#[test]
fn test_example_token() {
    let s = "7+12-3+1.1";

    let as_tokens = TokenSet::new(s);
    assert!(as_tokens.is_ok());

    let tokens = as_tokens.unwrap();
    assert_eq!(tokens.0.len(), 7);

    assert!(matches!(tokens.0[0], Token::Integer { .. }));
    assert!(matches!(tokens.0[1], Token::BinaryOperation { .. }));
    assert!(matches!(tokens.0[2], Token::Integer { .. }));
    assert!(matches!(tokens.0[3], Token::BinaryOperation { .. }));
    assert!(matches!(tokens.0[4], Token::Integer { .. }));
    assert!(matches!(tokens.0[5], Token::BinaryOperation { .. }));
    assert!(matches!(tokens.0[6], Token::Float { .. }));
}

#[test]
fn example_token_texts() {
    let tokens = TokenSet::new("7+12-3+1.1").unwrap();
    assert_eq!(text(&tokens.0[0]), "7");
    assert_eq!(tokens.0[1], Token::BinaryOperation(BinaryOp::Sum));
    assert_eq!(text(&tokens.0[2]), "12");
    assert_eq!(tokens.0[3], Token::BinaryOperation(BinaryOp::Sub));
    assert_eq!(text(&tokens.0[4]), "3");
    assert_eq!(text(&tokens.0[6]), "1.1");
}

#[test]
fn empty_text_gives_no_tokens() {
    let tokens = TokenSet::new("").unwrap();
    assert!(tokens.0.is_empty());
}

#[test]
fn digits_make_one_integer() {
    let tokens = TokenSet::new("90210").unwrap();
    assert_eq!(tokens.0.len(), 1);
    assert_eq!(tokens.0[0], Token::Integer("90210".chars().collect()));
}

#[test]
fn leading_minus_signs_the_numeral() {
    let tokens = TokenSet::new("-4*-.5").err();
    assert_eq!(tokens, Some(ParsingTokenError::UnknownOperation));
    let tokens = TokenSet::new("-4").unwrap();
    assert_eq!(tokens.0, vec![Token::Integer("-4".chars().collect())]);
    let tokens = TokenSet::new("(-.5)").unwrap();
    assert_eq!(tokens.0[1], Token::Float("-.5".chars().collect()));
}

#[test]
fn minus_after_operand_subtracts() {
    let tokens = TokenSet::new("(1)-2").unwrap();
    assert_eq!(tokens.0.len(), 5);
    assert_eq!(tokens.0[3], Token::BinaryOperation(BinaryOp::Sub));
    assert_eq!(text(&tokens.0[4]), "2");
}

#[test]
fn unary_names_resolve() {
    let cases = vec![
        ("sqrt(4)", UnaryOp::SquareRoot),
        ("\u{221a}9", UnaryOp::SquareRoot),
        ("sin(0)", UnaryOp::Sin),
        ("cos(0)", UnaryOp::Cos),
        ("acos(1)", UnaryOp::Acos),
    ];
    for (input, op) in cases {
        let tokens = TokenSet::new(input).unwrap();
        assert_eq!(tokens.0[0], Token::UnaryOperation(op));
    }
}

#[test]
fn operator_characters_run_together() {
    assert_eq!(TokenSet::new("1+sin(0)").err(), Some(ParsingTokenError::UnknownOperation));
}

#[test]
fn unknown_operator_name() {
    assert_eq!(TokenSet::new("2+si(1)").err(), Some(ParsingTokenError::UnknownOperation));
    assert_eq!(TokenSet::new("1++2").err(), Some(ParsingTokenError::UnknownOperation));
}

#[test]
fn two_dots_later_in_text() {
    assert_eq!(TokenSet::new("1+2.3.4").err(), Some(ParsingTokenError::TooManyDots));
    assert_eq!(TokenSet::new("(..)").err(), Some(ParsingTokenError::TooManyDots));
}

#[test]
fn other_characters_start_operator_names() {
    assert_eq!(TokenSet::new("12$12").err(), Some(ParsingTokenError::UnknownOperation));
    assert_eq!(TokenSet::new("1 + 2").err(), Some(ParsingTokenError::UnknownOperation));
    let tokens = TokenSet::new("x").unwrap();
    assert_eq!(tokens.0, vec![Token::Incomplete(vec!['x'])]);
    let tokens = TokenSet::new("12b").unwrap();
    assert_eq!(tokens.0, vec![Token::Integer(vec!['1', '2']), Token::Incomplete(vec!['b'])]);
    let tokens = TokenSet::new("(co$").unwrap();
    assert_eq!(tokens.0, vec![Token::ParenthesisOpen, Token::Incomplete(vec!['c', 'o', '$'])]);
}

#[test]
fn unfinished_name_is_kept_at_the_end() {
    let tokens = TokenSet::new("s").unwrap();
    assert_eq!(tokens.0, vec![Token::Incomplete(vec!['s'])]);
    assert_eq!(TokenSet::new("s1").err(), Some(ParsingTokenError::UnknownOperation));
    let tokens = TokenSet::new("2-").unwrap();
    assert_eq!(tokens.0, vec![Token::Integer(vec!['2']), Token::Incomplete(vec!['-'])]);
}

#[test]
fn digest_merges_and_closes() {
    let (a, b) = Token::Integer(vec!['1']).digest('2').unwrap();
    assert_eq!(a, Token::Integer(vec!['1', '2']));
    assert!(b.is_none());
    let (a, b) = Token::Integer(vec!['1']).digest('.').unwrap();
    assert_eq!(a, Token::Float(vec!['1', '.']));
    assert!(b.is_none());
    let (a, b) = Token::Incomplete(vec!['*']).digest('3').unwrap();
    assert_eq!(a, Token::BinaryOperation(BinaryOp::Mul));
    assert_eq!(b, Some(Token::Integer(vec!['3'])));
    let (a, b) = Token::ParenthesisClose.digest('/').unwrap();
    assert_eq!(a, Token::ParenthesisClose);
    assert_eq!(b, Some(Token::Incomplete(vec!['/'])));
    let (a, b) = Token::Unset.digest('(').unwrap();
    assert_eq!(a, Token::ParenthesisOpen);
    assert!(b.is_none());
    assert_eq!(Token::Float(vec!['.']).digest('.').err(), Some(ParsingTokenError::TooManyDots));
    let (a, b) = Token::Unset.digest('$').unwrap();
    assert_eq!(a, Token::Incomplete(vec!['$']));
    assert!(b.is_none());
    let (a, b) = Token::Incomplete(vec!['+']).digest('$').unwrap();
    assert_eq!(a, Token::Incomplete(vec!['+', '$']));
    assert!(b.is_none());
    let (a, b) = Token::ParenthesisOpen.digest('$').unwrap();
    assert_eq!(a, Token::ParenthesisOpen);
    assert_eq!(b, Some(Token::Incomplete(vec!['$'])));
    assert_eq!(
        Token::Incomplete(vec!['q']).digest('1').err(),
        Some(ParsingTokenError::UnknownOperation)
    );
}

#[test]
fn grades_follow_precedence() {
    let sum = Token::BinaryOperation(BinaryOp::Sum);
    let div = Token::BinaryOperation(BinaryOp::Div);
    let sin = Token::UnaryOperation(UnaryOp::Sin);
    assert_eq!(sum.get_grade(0), Some(1));
    assert_eq!(div.get_grade(0), Some(2));
    assert_eq!(sin.get_grade(0), Some(4));
    assert_eq!(sum.get_grade(3), Some(3_000_001));
    assert_eq!(sin.get_grade(5_000), Some(5_000_000_004));
    let deepest = (usize::MAX - 4) / 1_000_000;
    assert_eq!(sin.get_grade(deepest), Some(4 + deepest * 1_000_000));
    assert_eq!(Token::ParenthesisOpen.get_grade(0), None);
    assert_eq!(Token::Integer(vec!['1']).get_grade(0), None);
}

#[test]
fn adjacency_rules() {
    let sum = Token::BinaryOperation(BinaryOp::Sum);
    let sin = Token::UnaryOperation(UnaryOp::Sin);
    let one = Token::Integer(vec!['1']);
    let half = Token::Float(vec!['.', '5']);
    assert!(!one.can_be_followed_by(&Token::Unset));
    assert!(!Token::Unset.can_be_followed_by(&sum));
    assert!(!sum.can_be_followed_by(&sum));
    assert!(!sin.can_be_followed_by(&sum));
    assert!(!sum.can_be_followed_by(&Token::ParenthesisClose));
    assert!(!half.can_be_followed_by(&Token::ParenthesisOpen));
    assert!(!one.can_be_followed_by(&Token::ParenthesisOpen));
    assert!(one.can_be_followed_by(&sum));
    assert!(sum.can_be_followed_by(&sin));
    assert!(Token::Unset.can_be_followed_by(&one));
}

#[test]
fn placeholder_is_none() {
    assert!(Token::Unset.in_none());
    assert!(!Token::ParenthesisOpen.in_none());
}

#[test]
fn operation_lookup() {
    assert_eq!(BinaryOp::from_symbol('*'), Ok(BinaryOp::Mul));
    assert_eq!(BinaryOp::from_symbol('x'), Err(ParsingTokenError::OperationNotImplemented));
    assert_eq!(BinaryOp::from_text(&vec!['-']), Ok(BinaryOp::Sub));
    assert_eq!(BinaryOp::from_text(&vec!['-', '-']), Err(ParsingTokenError::OperationNotImplemented));
    assert_eq!(UnaryOp::from_name(&"acos".chars().collect()), Ok(UnaryOp::Acos));
    assert_eq!(UnaryOp::from_name(&"sqrt".chars().collect()), Ok(UnaryOp::SquareRoot));
    assert_eq!(UnaryOp::from_name(&"tan".chars().collect()), Err(ParsingTokenError::OperationNotImplemented));
}

#[test]
fn error_descriptions() {
    assert_eq!(
        ParsingTokenError::TooManyDots.__description(),
        "Too many dots in a float. A float can have only 1 dot"
    );
    assert_eq!(ParsingTokenError::UnknownOperation.__description(), "Operation not known");
    assert_eq!(ParsingTokenError::Empty.__description(), "");
}
