use exprlang::lexer::{tokenize, Token};
use exprlang::parser::{parse_expr, ParseError};

fn show(s: &str) -> Result<String, ParseError> {
    let tokens: Vec<Token> = tokenize(s).unwrap();
    parse_expr(tokens).map(|t| t.to_string())
}

#[test]
fn test_atom() {
    let s = "1";
    let tokens: Vec<Token> = tokenize(s).unwrap();
    assert_eq!(parse_expr(tokens).unwrap().to_string(), "1")
}

#[test]
fn test_s() {
    let s = "1 + 2 * 3";
    let tokens: Vec<Token> = tokenize(s).unwrap();
    assert_eq!(parse_expr(tokens).unwrap().to_string(), "(+ 1 (* 2 3))")
}

#[test]
fn precedence_levels() {
    assert_eq!(show("1 * 2 + 3"), Ok(String::from("(+ (* 1 2) 3)")));
    assert_eq!(show("a & 1 + 2"), Ok(String::from("(& a (+ 1 2))")));
    assert_eq!(show("1 \\ 2 | b"), Ok(String::from("(| (\\ 1 2) b)")));
}

#[test]
fn left_associative() {
    assert_eq!(show("1 - 2 - 3"), Ok(String::from("(- (- 1 2) 3)")));
    assert_eq!(show("8 \\ 4 \\ 2"), Ok(String::from("(\\ (\\ 8 4) 2)")));
}

#[test]
fn prefix_and_infix_minus() {
    assert_eq!(show("-2 + 3"), Ok(String::from("(+ (- 2) 3)")));
    assert_eq!(show("2 - 3"), Ok(String::from("(- 2 3)")));
    assert_eq!(show("2 - -3"), Ok(String::from("(- 2 (- 3))")));
    assert_eq!(show("!a & b"), Ok(String::from("(& (! a) b)")));
    assert_eq!(show("-2 * 3"), Ok(String::from("(* (- 2) 3)")));
}

#[test]
fn brackets_group() {
    assert_eq!(show("(1 + 2) * 3"), Ok(String::from("(* (+ 1 2) 3)")));
    assert_eq!(show("((7))"), Ok(String::from("7")));
    assert_eq!(show("-(1 + 2)"), Ok(String::from("(- (+ 1 2))")));
}

#[test]
fn syntax_errors() {
    assert_eq!(show(""), Err(ParseError::UnexpectedEnd));
    assert_eq!(show("1 +"), Err(ParseError::UnexpectedEnd));
    assert_eq!(show("1 2"), Err(ParseError::UnexpectedToken(1)));
    assert_eq!(show("+ 1"), Err(ParseError::UnexpectedToken(0)));
    assert_eq!(show("(1 + 2"), Err(ParseError::UnbalancedBracket));
    assert_eq!(show("1 + 2)"), Err(ParseError::UnbalancedBracket));
    assert_eq!(show("()"), Err(ParseError::UnexpectedToken(1)));
}

#[test]
fn tokens_after_end_marker_are_ignored() {
    let tokens = vec![Token::INT(String::from("4")), Token::END, Token::ADD];
    assert_eq!(parse_expr(tokens).unwrap().to_string(), "4");
}

#[test]
fn two_operators_nest_by_power() {
    assert_eq!(show("a * b - c"), Ok(String::from("(- (* a b) c)")));
    assert_eq!(show("a - b * c"), Ok(String::from("(- a (* b c))")));
    assert_eq!(show("a & b | c"), Ok(String::from("(| (& a b) c)")));
    assert_eq!(show("a | b \\ c"), Ok(String::from("(| a (\\ b c))")));
    assert_eq!(show("a + b - c"), Ok(String::from("(- (+ a b) c)")));
}
