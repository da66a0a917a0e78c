use wizarding::lexer::{lex, preprocess, LexError, Token};
use wizarding::number::Decimal;

fn number(value: f64) -> Token {
    Token::Number(Decimal::from_text(&format!("{}", value)).unwrap())
}

fn ident(name: &str) -> Token {
    Token::Ident(name.to_string())
}

fn operator(symbol: &str) -> Token {
    Token::Operator(symbol.to_string())
}

fn in_source_order(input: &str) -> Vec<Token> {
    let mut tokens = lex(input).unwrap();
    tokens.reverse();
    tokens
}

#[test]
fn ignore_works() {
    assert_eq!(preprocess("# somebody \na"), "\na");
}

#[test]
fn lex_works() {
    let input = "🜙add🜄x🜂x+1.0;";
    let tokenized = [
        Token::Delimiter,
        number(1.0),
        operator("+"),
        ident("x"),
        operator("🜂"),
        ident("x"),
        operator("🜄"),
        ident("add"),
        operator("🜙"),
    ];
    assert_eq!(lex(input).unwrap(), tokenized);
}

#[test]
fn lex_definition_in_source_order() {
    let expected = vec![
        Token::Def,
        ident("func"),
        Token::OpenParen,
        ident("x"),
        Token::CloseParen,
        ident("x"),
        operator("+"),
        number(1.0),
        Token::Delimiter,
    ];
    assert_eq!(in_source_order("def func(x) x + 1;"), expected);
}

#[test]
fn lex_returns_a_stack() {
    let stack = lex("def add(x) x+1.0;").unwrap();
    let expected = vec![
        Token::Delimiter,
        number(1.0),
        operator("+"),
        ident("x"),
        Token::CloseParen,
        ident("x"),
        Token::OpenParen,
        ident("add"),
        Token::Def,
    ];
    assert_eq!(stack, expected);
}

#[test]
fn comment_is_stripped_before_lexing() {
    assert_eq!(lex("# note\na").unwrap(), lex("a").unwrap());
    assert_eq!(lex("# note\na").unwrap(), vec![ident("a")]);
    assert_eq!(in_source_order("a # b c\nd"), vec![ident("a"), ident("d")]);
}

#[test]
fn preprocess_is_line_scoped() {
    assert_eq!(preprocess("a#b\nc#d"), "a\nc");
    assert_eq!(preprocess("#\n#\n"), "\n\n");
    assert_eq!(preprocess("no comment"), "no comment");
    assert_eq!(preprocess(""), "");
    assert_eq!(preprocess("x # one # two\ny"), "x \ny");
}

#[test]
fn preprocess_is_idempotent() {
    for text in ["# note\na", "a#b\nc#d", "plain", "##\n#", "a\n\n#x\r\nb"] {
        let once = preprocess(text);
        assert_eq!(preprocess(&once), once);
    }
}

#[test]
fn preprocess_strips_each_line_on_its_own() {
    let head = "a # first";
    let tail = "b # second\nc";
    let whole = format!("{}\n{}", head, tail);
    assert_eq!(preprocess(&whole), format!("{}\n{}", preprocess(head), preprocess(tail)));
}

#[test]
fn keywords_are_whole_words() {
    assert_eq!(in_source_order("def"), vec![Token::Def]);
    assert_eq!(in_source_order("extern"), vec![Token::Extern]);
    assert_eq!(in_source_order("define"), vec![ident("define")]);
    assert_eq!(in_source_order("externs"), vec![ident("externs")]);
    assert_eq!(in_source_order("de f"), vec![ident("de"), ident("f")]);
    assert_eq!(in_source_order("Def"), vec![ident("Def")]);
}

#[test]
fn names_are_as_long_as_possible() {
    assert_eq!(in_source_order("x1"), vec![ident("x1")]);
    assert_eq!(in_source_order("a_b2 c"), vec![ident("a_b2"), ident("c")]);
    assert_eq!(in_source_order("1x"), vec![number(1.0), ident("x")]);
    assert_eq!(in_source_order("_x"), vec![operator("_"), ident("x")]);
    assert_eq!(in_source_order("é1"), vec![ident("é1")]);
}

#[test]
fn numbers_are_as_long_as_possible() {
    assert_eq!(in_source_order("12.5"), vec![number(12.5)]);
    assert_eq!(in_source_order("1."), vec![number(1.0)]);
    assert_eq!(in_source_order("1.5.2"), vec![number(1.5), operator("."), number(2.0)]);
    assert_eq!(in_source_order(".5"), vec![operator("."), number(5.0)]);
    assert_eq!(in_source_order("1..2"), vec![number(1.0), operator("."), number(2.0)]);
    assert_eq!(in_source_order("007"), vec![number(7.0)]);
}

#[test]
fn punctuation_and_operators() {
    assert_eq!(
        in_source_order(";(),"),
        vec![Token::Delimiter, Token::OpenParen, Token::CloseParen, Token::Comma]
    );
    assert_eq!(in_source_order("<="), vec![operator("<"), operator("=")]);
    assert_eq!(in_source_order(" \t\r\n "), vec![]);
    assert_eq!(in_source_order(""), vec![]);
    assert_eq!(in_source_order("a:b"), vec![ident("a"), operator(":"), ident("b")]);
}

#[test]
fn digits_that_are_no_decimal_number() {
    assert_eq!(lex("x + ١٢"), Err(LexError::MalformedNumber("١٢".to_string())));
    assert_eq!(lex("١ 2 ٣"), Err(LexError::MalformedNumber("١".to_string())));
}
