use wizarding::ast::Expression;
use wizarding::classes::CharClasses;
use wizarding::lexer::{lex, Token};
use wizarding::number::Decimal;
use wizarding::parser::{Parser, SourceError};

fn num(text: &str) -> Expression {
    Expression::Literal(Decimal::from_text(text).unwrap())
}

fn var(name: &str) -> Expression {
    Expression::Variable(name.to_string())
}

fn bin(operator: &str, left: Expression, right: Expression) -> Expression {
    Expression::Binary(operator.to_string(), Box::new(left), Box::new(right))
}

fn call(callee: &str, args: Vec<Expression>) -> Expression {
    Expression::Call(callee.to_string(), args)
}

fn write_operand(e: &Expression) -> String {
    match e {
        Expression::Binary(..) => format!("({})", write(e)),
        _ => write(e),
    }
}

fn write(e: &Expression) -> String {
    match e {
        Expression::Literal(value) => value.to_text(),
        Expression::Variable(name) => name.clone(),
        Expression::Binary(operator, left, right) => {
            format!("{} {} {}", write_operand(left), operator, write_operand(right))
        }
        Expression::Call(callee, args) => {
            let args: Vec<String> = args.iter().map(write).collect();
            format!("{}({})", callee, args.join(", "))
        }
    }
}

fn read(source: &str) -> Expression {
    let mut tokens = lex(source).unwrap();
    let e = Parser::default().parse_expr(&mut tokens).unwrap();
    assert!(tokens.is_empty());
    e
}

#[test]
fn written_expressions_read_back() {
    let samples = vec![
        num("1"),
        num("0.25"),
        var("x"),
        call("f", vec![]),
        call("f", vec![var("x")]),
        call("f", vec![num("1"), call("g", vec![var("y"), num("2.5")])]),
        bin("+", var("a"), var("b")),
        bin("+", var("a"), bin("+", var("b"), var("c"))),
        bin("*", bin("+", var("a"), var("b")), var("c")),
        bin("-", bin("-", num("1"), num("2")), num("3")),
        bin("/", num("1"), bin("*", num("2"), call("h", vec![bin("-", var("x"), num("1"))]))),
    ];
    for e in samples {
        assert_eq!(read(&write(&e)), e, "{}", write(&e));
    }
}

#[test]
fn reading_writing_reading_is_reading() {
    for source in [
        "x + 1 * (2 - 3)",
        "1 - 2 - 3",
        "a * b + c * d - e / f",
        "f(a + b, (c), g()) / 2.50",
        "((a))",
        "1 + (2 + (3 + 4)) + 5",
    ] {
        let e = read(source);
        assert_eq!(read(&write(&e)), e, "{}", source);
    }
}

#[test]
fn writing_is_canonical() {
    assert_eq!(write(&read("x + 1 * (2 - 3)")), "x + (1 * (2 - 3))");
    assert_eq!(write(&read("1 - 2 - 3")), "(1 - 2) - 3");
    assert_eq!(write(&read("f( 1.0 ,g( ) )")), "f(1, g())");
}

#[test]
fn chains_of_one_power_nest_to_the_left() {
    let names = ["a", "b", "c", "d", "e", "f"];
    for operators in [["+", "-", "+", "-", "+"], ["*", "/", "/", "*", "*"], ["-", "-", "-", "-", "-"]] {
        let mut source = names[0].to_string();
        let mut expected = var(names[0]);
        for (i, operator) in operators.iter().enumerate() {
            source = format!("{} {} {}", source, operator, names[i + 1]);
            expected = bin(operator, expected, var(names[i + 1]));
        }
        assert_eq!(read(&source), expected, "{}", source);
    }
}

#[test]
fn the_tighter_operator_takes_the_operand() {
    assert_eq!(read("a + b * c"), bin("+", var("a"), bin("*", var("b"), var("c"))));
    assert_eq!(read("a * b + c"), bin("+", bin("*", var("a"), var("b")), var("c")));
    assert_eq!(read("a - b / c"), bin("-", var("a"), bin("/", var("b"), var("c"))));
    assert_eq!(read("a / b - c"), bin("-", bin("/", var("a"), var("b")), var("c")));
    assert_eq!(read("a + b - c"), bin("-", bin("+", var("a"), var("b")), var("c")));
}

#[test]
fn classes_agree_on_plain_ascii() {
    let classes = CharClasses::new().unwrap();
    assert!(classes.agrees_on_ascii());
}

#[test]
fn written_tokens_read_back() {
    let tokens = vec![
        Token::Def,
        Token::Ident("f".to_string()),
        Token::OpenParen,
        Token::Ident("x1".to_string()),
        Token::Comma,
        Token::Ident("y_2".to_string()),
        Token::CloseParen,
        Token::Number(Decimal::from_text("12.50").unwrap()),
        Token::Operator("*".to_string()),
        Token::Number(Decimal::from_text("0.05").unwrap()),
        Token::Operator(":".to_string()),
        Token::Number(Decimal::from_text("0").unwrap()),
        Token::Delimiter,
        Token::Extern,
        Token::Ident("defs".to_string()),
    ];
    let mut text = String::new();
    for token in &tokens {
        let written = match token {
            Token::Def => "def".to_string(),
            Token::Extern => "extern".to_string(),
            Token::Delimiter => ";".to_string(),
            Token::OpenParen => "(".to_string(),
            Token::CloseParen => ")".to_string(),
            Token::Comma => ",".to_string(),
            Token::Ident(name) => name.clone(),
            Token::Operator(symbol) => symbol.clone(),
            Token::Number(value) => value.to_text(),
        };
        text.push_str(&written);
        text.push(' ');
    }
    assert_eq!(text, "def f ( x1 , y_2 ) 12.5 * 0.05 : 0 ; extern defs ");
    let mut read = lex(&text).unwrap();
    read.reverse();
    assert_eq!(read, tokens);
}

#[test]
fn lexing_twice_gives_the_same() {
    for source in ["def f(x) x + 1;", "# only a comment", "1 ٣", ""] {
        assert_eq!(lex(source), lex(source));
        let parser = Parser::default();
        assert_eq!(parser.parse_str(source), parser.parse_str(source));
    }
}

#[test]
fn parse_str_is_parse_of_lex() {
    let parser = Parser::default();
    for source in ["extern sin(x); def f(x) sin(x) * x; f(2)", "1 +", "def f(", "x : y", ";;"] {
        let mut tokens = lex(source).unwrap();
        let direct = parser.parse(&mut tokens);
        match parser.parse_str(source) {
            Ok(ast) => assert_eq!(Ok(ast), direct),
            Err(SourceError::Parse(e)) => assert_eq!(Err(e), direct),
            Err(other) => panic!("{:?}", other),
        }
    }
}

fn write_sparse(e: &Expression, least: u64) -> String {
    match e {
        Expression::Binary(operator, left, right) => {
            let power: u64 = match operator.as_str() {
                "*" | "/" => 40,
                _ => 20,
            };
            if power >= least {
                format!(
                    "{} {} {}",
                    write_sparse(left, power),
                    operator,
                    write_sparse(right, power + 1)
                )
            } else {
                format!("({})", write_sparse(e, 0))
            }
        }
        _ => write(e),
    }
}

#[test]
fn sparsely_written_expressions_read_back() {
    let samples = vec![
        (bin("+", var("a"), bin("*", var("b"), var("c"))), "a + b * c"),
        (bin("*", bin("+", var("a"), var("b")), var("c")), "(a + b) * c"),
        (bin("-", var("a"), bin("-", var("b"), var("c"))), "a - (b - c)"),
        (bin("-", bin("-", var("a"), var("b")), var("c")), "a - b - c"),
        (bin("*", var("a"), bin("/", var("b"), var("c"))), "a * (b / c)"),
        (
            bin("-", bin("+", var("a"), bin("*", bin("*", var("b"), var("c")), var("d"))), bin("/", var("e"), var("f"))),
            "a + b * c * d - e / f",
        ),
        (
            bin("*", bin("+", var("a"), var("b")), bin("-", var("c"), call("f", vec![bin("+", var("x"), num("1"))]))),
            "(a + b) * (c - f(x + 1))",
        ),
    ];
    for (e, text) in samples {
        assert_eq!(write_sparse(&e, 0), text);
        assert_eq!(read(text), e, "{}", text);
    }
}
