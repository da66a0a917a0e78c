use wizarding::ast::{ASTNode, Expression, Function, Prototype};
use wizarding::classes::CharClasses;
use wizarding::lexer::{lex, lex_with, LexError, Token};
use wizarding::number::Decimal;
use wizarding::parser::{Parser, ParserError, SourceError};

fn num(value: f64) -> Expression {
    Expression::Literal(Decimal::from_text(&format!("{}", value)).unwrap())
}

fn var(name: &str) -> Expression {
    Expression::Variable(name.to_string())
}

fn bin(operator: &str, left: Expression, right: Expression) -> Expression {
    Expression::Binary(operator.to_string(), Box::new(left), Box::new(right))
}

fn call(callee: &str, args: Vec<Expression>) -> Expression {
    Expression::Call(callee.to_string(), args)
}

fn proto(name: &str, args: &[&str]) -> Prototype {
    Prototype {
        name: name.to_string(),
        args: args.iter().map(|a| a.to_string()).collect(),
    }
}

fn lambda(body: Expression) -> ASTNode {
    ASTNode::Function(Function {
        prototype: proto("", &[]),
        body,
    })
}

fn program(source: &str) -> Result<Vec<ASTNode>, ParserError> {
    let mut tokens = lex(source).unwrap();
    Parser::default().parse(&mut tokens)
}

fn expression(source: &str) -> Result<Expression, ParserError> {
    let mut tokens = lex(source).unwrap();
    Parser::default().parse_expr(&mut tokens)
}

#[test]
fn empty_program() {
    assert_eq!(program(""), Ok(vec![]));
    assert_eq!(program(";;;"), Ok(vec![]));
    assert_eq!(program("# nothing\n ; # here\n"), Ok(vec![]));
}

#[test]
fn items_come_in_source_order() {
    let ast = program("extern sin(x); def twice(x) x * 2; twice(sin(1))").unwrap();
    assert_eq!(
        ast,
        vec![
            ASTNode::Extern(proto("sin", &["x"])),
            ASTNode::Function(Function {
                prototype: proto("twice", &["x"]),
                body: bin("*", var("x"), num(2.0)),
            }),
            lambda(call("twice", vec![call("sin", vec![num(1.0)])])),
        ]
    );
}

#[test]
fn items_need_no_delimiter() {
    let ast = program("1 2 def f() 3 x").unwrap();
    assert_eq!(
        ast,
        vec![
            lambda(num(1.0)),
            lambda(num(2.0)),
            ASTNode::Function(Function {
                prototype: proto("f", &[]),
                body: num(3.0),
            }),
            lambda(var("x")),
        ]
    );
}

#[test]
fn parse_consumes_every_token() {
    let mut tokens = lex("def f(a) a; f(1);").unwrap();
    let ast = Parser::default().parse(&mut tokens).unwrap();
    assert_eq!(ast.len(), 2);
    assert!(tokens.is_empty());
}

#[test]
fn parse_expr_leaves_what_follows() {
    let mut tokens = lex("a + b ; c").unwrap();
    let e = Parser::default().parse_expr(&mut tokens).unwrap();
    assert_eq!(e, bin("+", var("a"), var("b")));
    assert_eq!(tokens, vec![Token::Ident("c".to_string()), Token::Delimiter]);
}

#[test]
fn first_error_ends_the_parse() {
    assert_eq!(program("1; 2 +; 3 : 4"), Err(ParserError::InvalidToken(Token::Delimiter)));
    assert_eq!(program("1; 2 : 3; 4 +"), Err(ParserError::InvalidOperator(":".to_string())));
    assert_eq!(program("def f(x) x; def"), Err(ParserError::UnexpectedEOF));
}

#[test]
fn prototype_errors() {
    assert_eq!(program("def"), Err(ParserError::UnexpectedEOF));
    assert_eq!(program("def f"), Err(ParserError::UnexpectedEOF));
    assert_eq!(program("def f("), Err(ParserError::UnexpectedEOF));
    assert_eq!(program("def f(x"), Err(ParserError::UnexpectedEOF));
    assert_eq!(program("def f(x,"), Err(ParserError::UnexpectedEOF));
    assert_eq!(program("def f(x)"), Err(ParserError::UnexpectedEOF));
    assert_eq!(program("def 1(x) x"), Err(ParserError::InvalidToken(Token::Number(Decimal::from_text("1").unwrap()))));
    assert_eq!(program("def f x"), Err(ParserError::InvalidToken(Token::Ident("x".to_string()))));
    assert_eq!(program("def f(x y) x"), Err(ParserError::InvalidToken(Token::Ident("y".to_string()))));
    assert_eq!(program("def f(x,) x"), Err(ParserError::InvalidToken(Token::CloseParen)));
    assert_eq!(program("def f(1) x"), Err(ParserError::InvalidToken(Token::Number(Decimal::from_text("1").unwrap()))));
    assert_eq!(program("def f(x, 1) x"), Err(ParserError::InvalidToken(Token::Number(Decimal::from_text("1").unwrap()))));
    assert_eq!(program("def f(x; y) x"), Err(ParserError::InvalidToken(Token::Delimiter)));
    assert_eq!(program("extern (x)"), Err(ParserError::InvalidToken(Token::OpenParen)));
    assert_eq!(program("extern def"), Err(ParserError::InvalidToken(Token::Def)));
}

#[test]
fn parameters_may_repeat() {
    assert_eq!(
        program("extern f(x, x);"),
        Ok(vec![ASTNode::Extern(proto("f", &["x", "x"]))])
    );
}

#[test]
fn call_errors() {
    assert_eq!(expression("f("), Err(ParserError::UnexpectedEOF));
    assert_eq!(expression("f(1"), Err(ParserError::UnexpectedEOF));
    assert_eq!(expression("f(1,"), Err(ParserError::UnexpectedEOF));
    assert_eq!(expression("f(1,)"), Err(ParserError::InvalidToken(Token::CloseParen)));
    assert_eq!(expression("f(,1)"), Err(ParserError::InvalidToken(Token::Comma)));
    assert_eq!(expression("f(1 2)"), Err(ParserError::InvalidToken(Token::Number(Decimal::from_text("2").unwrap()))));
    assert_eq!(expression("f(1;"), Err(ParserError::InvalidToken(Token::Delimiter)));
    assert_eq!(expression("f(1 : 2)"), Err(ParserError::InvalidOperator(":".to_string())));
}

#[test]
fn primary_errors() {
    assert_eq!(expression(""), Err(ParserError::UnexpectedEOF));
    assert_eq!(expression(")"), Err(ParserError::InvalidToken(Token::CloseParen)));
    assert_eq!(expression(","), Err(ParserError::InvalidToken(Token::Comma)));
    assert_eq!(expression(";"), Err(ParserError::InvalidToken(Token::Delimiter)));
    assert_eq!(expression("def"), Err(ParserError::InvalidToken(Token::Def)));
    assert_eq!(expression("extern"), Err(ParserError::InvalidToken(Token::Extern)));
    assert_eq!(expression("+ 1"), Err(ParserError::InvalidToken(Token::Operator("+".to_string()))));
    assert_eq!(expression("(1"), Err(ParserError::UnexpectedEOF));
    assert_eq!(expression("(1 2"), Err(ParserError::InvalidToken(Token::Number(Decimal::from_text("2").unwrap()))));
    assert_eq!(expression("(1,"), Err(ParserError::InvalidToken(Token::Comma)));
    assert_eq!(expression("1 + *"), Err(ParserError::InvalidToken(Token::Operator("*".to_string()))));
}

#[test]
fn unknown_operator_is_reported_wherever_it_stands() {
    assert_eq!(expression("1 = 2"), Err(ParserError::InvalidOperator("=".to_string())));
    assert_eq!(expression("1 + 2 ^ 3"), Err(ParserError::InvalidOperator("^".to_string())));
    assert_eq!(expression("1 * 2 < 3"), Err(ParserError::InvalidOperator("<".to_string())));
    assert_eq!(expression("(1 + 2 ! 3)"), Err(ParserError::InvalidOperator("!".to_string())));
}

#[test]
fn nested_calls_and_parentheses() {
    assert_eq!(
        expression("f(g(x), (y), h())").unwrap(),
        call("f", vec![call("g", vec![var("x")]), var("y"), call("h", vec![])])
    );
    assert_eq!(expression("((((1))))").unwrap(), num(1.0));
    assert_eq!(
        expression("(a + b) * c").unwrap(),
        bin("*", bin("+", var("a"), var("b")), var("c"))
    );
    assert_eq!(
        expression("f(a + b * c, d)").unwrap(),
        call("f", vec![bin("+", var("a"), bin("*", var("b"), var("c"))), var("d")])
    );
}

#[test]
fn mixed_powers() {
    assert_eq!(
        expression("a + b * c * d - e / f").unwrap(),
        bin(
            "-",
            bin("+", var("a"), bin("*", bin("*", var("b"), var("c")), var("d"))),
            bin("/", var("e"), var("f"))
        )
    );
    assert_eq!(
        expression("a * b + c * d").unwrap(),
        bin("+", bin("*", var("a"), var("b")), bin("*", var("c"), var("d")))
    );
}

#[test]
fn default_table() {
    let parser = Parser::default();
    assert_eq!(parser.operator_precedence.len(), 4);
    assert_eq!(parser.operator_precedence.get("*"), Some(&40));
    assert_eq!(parser.operator_precedence.get("/"), Some(&40));
    assert_eq!(parser.operator_precedence.get("+"), Some(&20));
    assert_eq!(parser.operator_precedence.get("-"), Some(&20));
    assert_eq!(parser.operator_precedence.get("^"), None);
}

#[test]
fn custom_table() {
    let mut parser = Parser::default();
    parser.operator_precedence.insert("^".to_string(), 60);
    parser.operator_precedence.insert("<".to_string(), 10);
    parser.operator_precedence.insert("!".to_string(), u32::MAX);
    parser.operator_precedence.insert("?".to_string(), 0);
    let mut tokens = lex("a < b + c ^ d * e").unwrap();
    assert_eq!(
        parser.parse_expr(&mut tokens).unwrap(),
        bin(
            "<",
            var("a"),
            bin("+", var("b"), bin("*", bin("^", var("c"), var("d")), var("e")))
        )
    );
    let mut tokens = lex("a ! b ! c ? d ? e").unwrap();
    assert_eq!(
        parser.parse_expr(&mut tokens).unwrap(),
        bin("?", bin("?", bin("!", bin("!", var("a"), var("b")), var("c")), var("d")), var("e"))
    );
    let mut tokens = lex("a ? b ! c").unwrap();
    assert_eq!(
        parser.parse_expr(&mut tokens).unwrap(),
        bin("?", var("a"), bin("!", var("b"), var("c")))
    );
}

#[test]
fn operators_may_be_any_text_in_the_table() {
    let mut parser = Parser::default();
    parser.operator_precedence.insert("mod".to_string(), 40);
    let mut tokens = vec![
        Token::Ident("b".to_string()),
        Token::Operator("mod".to_string()),
        Token::Ident("a".to_string()),
    ];
    assert_eq!(parser.parse_expr(&mut tokens).unwrap(), bin("mod", var("a"), var("b")));
}

#[test]
fn parse_str_works() {
    let parser = Parser::default();
    assert_eq!(
        parser.parse_str("extern sin(x); def thing(x) sin(x) * x;"),
        Ok(vec![
            ASTNode::Extern(proto("sin", &["x"])),
            ASTNode::Function(Function {
                prototype: proto("thing", &["x"]),
                body: bin("*", call("sin", vec![var("x")]), var("x")),
            }),
        ])
    );
    assert_eq!(
        parser.parse_str("1 +"),
        Err(SourceError::Parse(ParserError::UnexpectedEOF))
    );
    assert_eq!(
        parser.parse_str("1 + ٣"),
        Err(SourceError::Lex(LexError::MalformedNumber("٣".to_string())))
    );
    assert_eq!(
        parser.parse_str("1 : 2; ٣"),
        Err(SourceError::Lex(LexError::MalformedNumber("٣".to_string())))
    );
}

#[test]
fn parse_str_with_given_classes() {
    let classes = CharClasses::new().unwrap();
    let parser = Parser::default();
    assert_eq!(
        parser.parse_str_with(&classes, "x # the only item\n"),
        Ok(vec![lambda(var("x"))])
    );
    assert_eq!(lex_with(&classes, "a b"), lex("a b"));
}

#[test]
fn character_classes() {
    let classes = CharClasses::new().unwrap();
    assert!(classes.letter('a') && classes.letter('Z') && classes.letter('é') && classes.letter('λ'));
    assert!(!classes.letter('1') && !classes.letter('_') && !classes.letter(' ') && !classes.letter('+'));
    assert!(classes.word('a') && classes.word('1') && classes.word('_') && classes.word('é'));
    assert!(!classes.word('-') && !classes.word(' ') && !classes.word('('));
    assert!(classes.digit('0') && classes.digit('9') && classes.digit('٣'));
    assert!(!classes.digit('a') && !classes.digit('.') && !classes.digit(' '));
    assert!(classes.solid('+') && classes.solid('a') && classes.solid('#'));
    assert!(!classes.solid(' ') && !classes.solid('\n') && !classes.solid('\t') && !classes.solid('\u{a0}'));
}

#[test]
fn clones_are_equal() {
    let ast = program("extern f(a, b); def g(x) f(x, 1.5) + (x - 2) * 3; g(4)").unwrap();
    for node in &ast {
        assert_eq!(&node.clone(), node);
    }
    let e = ParserError::InvalidToken(Token::Ident("x".to_string()));
    assert_eq!(e.clone(), e);
    let e = ParserError::InvalidOperator(":".to_string());
    assert_eq!(e.clone(), e);
    assert_eq!(ParserError::UnexpectedEOF.clone(), ParserError::UnexpectedEOF);
    for token in lex("def extern ; ( ) , x + 1.5").unwrap() {
        assert_eq!(token.clone(), token);
    }
}
