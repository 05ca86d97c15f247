use exprlang::lexer::Token::{ADD, ALPHA, AND, BACKTICK, BANG, COLON, DIV, END, INT, LBRACE, LBRACKET, MULT, OR, RBRACE, RBRACKET, SUB};
use exprlang::lexer::{tokenize, LexError, Scanner};

#[test]
fn test_add() {
    let mut scan = Scanner::new("2+2");
    assert_eq!(scan.get(), Ok(INT(String::from("2"))));
    assert_eq!(scan.get(), Ok(ADD));
    assert_eq!(scan.get(), Ok(INT(String::from("2"))));
}

#[test]
fn test_long_int() {
    let mut scan = Scanner::new("23+27");
    assert_eq!(scan.get(), Ok(INT(String::from("23"))));
    assert_eq!(scan.get(), Ok(ADD));
    assert_eq!(scan.get(), Ok(INT(String::from("27"))));
}

#[test]
fn test_whitespace() {
    let mut scan = Scanner::new("     2 +  2  ");
    assert_eq!(scan.get(), Ok(INT(String::from("2"))));
    assert_eq!(scan.get(), Ok(ADD));
    assert_eq!(scan.get(), Ok(INT(String::from("2"))));
}

#[test]
fn whitespace_does_not_change_tokens() {
    let expected = vec![INT(String::from("2")), ADD, INT(String::from("2"))];
    assert_eq!(tokenize("2+2"), Ok(expected));
    let expected = vec![INT(String::from("2")), ADD, INT(String::from("2"))];
    assert_eq!(tokenize("     2 +  2  "), Ok(expected));
    let expected = vec![INT(String::from("2")), ADD, INT(String::from("2"))];
    assert_eq!(tokenize("\t2\n+\u{3000}2\r\n"), Ok(expected));
}

#[test]
fn digits_are_one_token() {
    assert_eq!(tokenize("23"), Ok(vec![INT(String::from("23"))]));
    assert_eq!(tokenize("0"), Ok(vec![INT(String::from("0"))]));
    assert_eq!(
        tokenize("123456789012345678901234567890"),
        Ok(vec![INT(String::from("123456789012345678901234567890"))])
    );
}

#[test]
fn empty_input_is_end() {
    let mut scan = Scanner::new("");
    assert_eq!(scan.get(), Ok(END));
    let mut scan = Scanner::new("");
    assert_eq!(scan.next(), Ok(None));
    assert_eq!(tokenize(""), Ok(vec![]));
    assert_eq!(tokenize("   \n "), Ok(vec![]));
}

#[test]
fn alphabetic_runs() {
    assert_eq!(
        tokenize("abc+héllo"),
        Ok(vec![ALPHA(String::from("abc")), ADD, ALPHA(String::from("héllo"))])
    );
    assert_eq!(
        tokenize("ab12"),
        Ok(vec![ALPHA(String::from("ab")), INT(String::from("12"))])
    );
}

#[test]
fn every_symbol() {
    assert_eq!(
        tokenize("+-*\\!&|(){}`:"),
        Ok(vec![ADD, SUB, MULT, DIV, BANG, AND, OR, LBRACKET, RBRACKET, LBRACE, RBRACE, BACKTICK, COLON])
    );
}

#[test]
fn next_ends_at_end_of_text() {
    let mut scan = Scanner::new("7 *");
    assert_eq!(scan.next(), Ok(Some(INT(String::from("7")))));
    assert_eq!(scan.next(), Ok(Some(MULT)));
    assert_eq!(scan.next(), Ok(None));
}

#[test]
fn unrecognized_character() {
    assert_eq!(tokenize("2 # 3"), Err(LexError { ch: '#', line: 1 }));
    assert_eq!(tokenize("1\n+\n\n$"), Err(LexError { ch: '$', line: 4 }));
    let mut scan = Scanner::new("?");
    assert_eq!(scan.get(), Err(LexError { ch: '?', line: 1 }));
}

#[test]
fn line_counter_follows_line_feeds() {
    let mut scan = Scanner::new("1\n2\n\n3");
    assert_eq!(scan.line(), 1);
    assert_eq!(scan.get(), Ok(INT(String::from("1"))));
    assert_eq!(scan.get(), Ok(INT(String::from("2"))));
    assert_eq!(scan.line(), 2);
    assert_eq!(scan.get(), Ok(INT(String::from("3"))));
    assert_eq!(scan.line(), 4);
}

#[test]
fn whitespace_inside_a_run_splits_it() {
    assert_eq!(
        tokenize("12 34"),
        Ok(vec![INT(String::from("12")), INT(String::from("34"))])
    );
    assert_eq!(
        tokenize("ab\u{2003}cd"),
        Ok(vec![ALPHA(String::from("ab")), ALPHA(String::from("cd"))])
    );
}

#[test]
fn whitespace_between_tokens_is_ignored() {
    let expected = vec![LBRACKET, INT(String::from("1")), AND, ALPHA(String::from("x")), RBRACKET];
    assert_eq!(tokenize("(1&x)"), Ok(expected));
    let expected = vec![LBRACKET, INT(String::from("1")), AND, ALPHA(String::from("x")), RBRACKET];
    assert_eq!(tokenize(" ( 1\u{a0}&\u{2028}x ) "), Ok(expected));
}
