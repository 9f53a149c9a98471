use calculator::binary_operations::BinaryOp;
use calculator::error::ParsingTokenError;
use calculator::expression::parse_tree;
use calculator::token::Token;
use calculator::token_set::{Invalid, TokenSet};
use calculator::token_tree::TokenTree;
use calculator::unary_operations::UnaryOp;

fn number(t: &Token) -> f32 {
    match t {
        Token::Integer(s) | Token::Float(s) => s.iter().collect::<String>().parse().unwrap(),
        _ => panic!("not a numeral: {:?}", t),
    }
}

fn solve(tree: &TokenTree) -> f32 {
    match tree {
        TokenTree::Single(t) => number(t),
        TokenTree::BinaryOperation(a, Token::BinaryOperation(op), b) => {
            let (a, b) = (solve(a), solve(b));
            match op {
                BinaryOp::Sum => a + b,
                BinaryOp::Sub => a - b,
                BinaryOp::Mul => a * b,
                BinaryOp::Div => a / b,
            }
        }
        TokenTree::UnaryOperation(Token::UnaryOperation(op), b) => {
            let b = solve(b);
            match op {
                UnaryOp::SquareRoot => b.sqrt(),
                UnaryOp::Cos => b.cos(),
                UnaryOp::Acos => b.acos(),
                UnaryOp::Sin => b.sin(),
            }
        }
        TokenTree::Parenthesis(content) => solve(content),
        _ => panic!("malformed tree"),
    }
}

fn validate(s: &str) -> Result<TokenSet<calculator::token_set::Valid>, ParsingTokenError> {
    let tokens: TokenSet<Invalid> = TokenSet::new(s).unwrap();
    tokens.validate()
}

#[test]
fn test_evaluate_example_token_sum() {
    let s = "7+12-3+1.1";

    let as_tokens = TokenSet::new(s);
    assert!(as_tokens.is_ok());

    let tokens = as_tokens.unwrap();
    let tree = tokens.validate().unwrap().split();

    let solution = solve(&tree);

    assert_eq!(solution, 17.1);
}

#[test]
fn test_evaluate_example_token_sum_mul() {
    let s = "7+12*3+1+4*2";

    let as_tokens = TokenSet::new(s);
    assert!(as_tokens.is_ok());

    let tokens = as_tokens.unwrap();
    let tree = tokens.validate().unwrap().split();

    let solution = solve(&tree);

    assert_eq!(solution, (7 + 12 * 3 + 1 + 4 * 2) as f32);
}

#[test]
fn test_evaluate_example_token_sum_mul_parenthesis() {
    let s = "7+12*3+(1+4)*2";

    let as_tokens = TokenSet::new(s);
    assert!(as_tokens.is_ok());

    let tokens = as_tokens.unwrap();
    let tree = tokens.validate().unwrap().split();

    let solution = solve(&tree);

    assert_eq!(solution, (7 + 12 * 3 + (1 + 4) * 2) as f32);
}

#[test]
fn precedence_values() {
    assert_eq!(solve(&parse_tree("7+12*3+1+4*2").unwrap()), 52.0);
    assert_eq!(solve(&parse_tree("7+12*3+(1+4)*2").unwrap()), 53.0);
    assert_eq!(solve(&parse_tree("8/4/2").unwrap()), 1.0);
    assert_eq!(solve(&parse_tree("10-4-3").unwrap()), 3.0);
    assert_eq!(solve(&parse_tree("2*(3+(4-1))*2").unwrap()), 24.0);
}

#[test]
fn spaces_are_ignored() {
    assert_eq!(solve(&parse_tree(" 7 + 12 - 3 + 1.1 ").unwrap()), 17.1);
}

#[test]
fn unary_operations_apply_to_what_follows() {
    assert_eq!(solve(&parse_tree("sqrt(16)").unwrap()), 4.0);
    assert_eq!(solve(&parse_tree("sqrt(9)*2").unwrap()), 6.0);
    assert_eq!(solve(&parse_tree("sqrt(sqrt(16))").unwrap()), 2.0);
    assert_eq!(solve(&parse_tree("cos0").unwrap()), 1.0);
    assert!(solve(&parse_tree("sqrt(0-4)").unwrap()).is_nan());
}

#[test]
fn signed_numerals() {
    assert_eq!(solve(&parse_tree("-3*2").unwrap()), -6.0);
    assert_eq!(solve(&parse_tree("5-(-3)").unwrap()), 8.0);
    assert_eq!(parse_tree("5--3").err(), Some(ParsingTokenError::UnknownOperation));
    assert_eq!(solve(&parse_tree("(0-1)-.5").unwrap()), -1.5);
}

#[test]
fn division_by_zero_is_infinite() {
    assert!(solve(&parse_tree("1/0").unwrap()).is_infinite());
}

#[test]
fn digits_evaluate_to_their_value() {
    for s in ["0", "7", "42", "1000000", "007"] {
        let tree = parse_tree(s).unwrap();
        assert!(matches!(tree, TokenTree::Single(Token::Integer(_))));
        assert_eq!(solve(&tree), s.parse::<u32>().unwrap() as f32);
    }
}

#[test]
fn single_token_is_a_leaf() {
    let tree = validate("12.5").unwrap().split();
    assert!(matches!(tree, TokenTree::Single(Token::Float(_))));
}

#[test]
fn outer_parentheses_do_not_matter() {
    for s in ["1+2*3", "(4-1)*(2+2)", "sqrt(4)", "6/3-1"] {
        let wrapped = format!("({})", s);
        assert_eq!(solve(&parse_tree(&wrapped).unwrap()), solve(&parse_tree(s).unwrap()));
    }
    let tree = parse_tree("((5))").unwrap();
    assert!(matches!(tree, TokenTree::Single(Token::Integer(_))));
}

#[test]
fn binary_root_is_last_loosest_operator() {
    match parse_tree("1-2+3*4").unwrap() {
        TokenTree::BinaryOperation(left, op, right) => {
            assert_eq!(op, Token::BinaryOperation(BinaryOp::Sum));
            assert!(matches!(*left, TokenTree::BinaryOperation(_, Token::BinaryOperation(BinaryOp::Sub), _)));
            assert!(matches!(*right, TokenTree::BinaryOperation(_, Token::BinaryOperation(BinaryOp::Mul), _)));
        }
        other => panic!("unexpected tree {:?}", other),
    }
}

#[test]
fn unbalanced_parentheses() {
    assert_eq!(validate("(1+2").err(), Some(ParsingTokenError::ParenthesisOpenedWithoutClosing));
    assert_eq!(validate("1+2)").err(), Some(ParsingTokenError::ParenthesisClosedWithoutOpening));
    assert_eq!(parse_tree("((1)").err(), Some(ParsingTokenError::ParenthesisOpenedWithoutClosing));
    assert_eq!(parse_tree("(1))+(2").err(), Some(ParsingTokenError::ParenthesisClosedWithoutOpening));
}

#[test]
fn empty_input_is_rejected() {
    assert_eq!(validate("").err(), Some(ParsingTokenError::Empty));
    assert_eq!(parse_tree("   ").err(), Some(ParsingTokenError::Empty));
}

#[test]
fn invalid_sequences() {
    for s in ["+1", "(+1)", "(sin)+1", "1+)", "2(3)", "()", "(1)(2)", "(1+)", "(sin)", "1sin2"] {
        assert_eq!(parse_tree(s).err(), Some(ParsingTokenError::InvalidSequence), "{}", s);
    }
}

#[test]
fn incomplete_token_is_unknown_operation() {
    assert_eq!(validate("x").err(), Some(ParsingTokenError::UnknownOperation));
    assert_eq!(validate("()x").err(), Some(ParsingTokenError::UnknownOperation));
    assert_eq!(validate("2-").err(), Some(ParsingTokenError::UnknownOperation));
    assert_eq!(validate("1+").err(), Some(ParsingTokenError::UnknownOperation));
    assert_eq!(validate("sin").err(), Some(ParsingTokenError::UnknownOperation));
}

#[test]
fn adjacency_and_balance_come_before_shape() {
    assert_eq!(validate("()(").err(), Some(ParsingTokenError::ParenthesisOpenedWithoutClosing));
    assert_eq!(validate("())").err(), Some(ParsingTokenError::ParenthesisClosedWithoutOpening));
    assert_eq!(validate("()").err(), Some(ParsingTokenError::InvalidSequence));
    assert_eq!(validate("(sin)").err(), Some(ParsingTokenError::InvalidSequence));
}

#[test]
fn valid_sequence_keeps_tokens() {
    let valid = validate("(1+2)*3").unwrap();
    assert_eq!(valid.0.len(), 7);
    assert_eq!(valid.0[5], Token::BinaryOperation(BinaryOp::Mul));
}

#[test]
fn tokenizer_errors_pass_through() {
    assert_eq!(parse_tree("12.2.").err(), Some(ParsingTokenError::TooManyDots));
    assert_eq!(parse_tree("12$12").err(), Some(ParsingTokenError::UnknownOperation));
}
