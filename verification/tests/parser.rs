use wizarding::ast::{ASTNode, Expression, Function, Prototype};
use wizarding::lexer::{lex, Token};
use wizarding::number::Decimal;
use wizarding::parser::{Parser, ParserError};

fn literal(value: f64) -> Expression {
    Expression::Literal(Decimal::from_text(&format!("{}", value)).unwrap())
}

fn variable(name: &str) -> Expression {
    Expression::Variable(name.to_string())
}

fn binary(operator: &str, left: Expression, right: Expression) -> Expression {
    Expression::Binary(operator.to_string(), Box::new(left), Box::new(right))
}

#[test]
fn lamda_parse_works() {
    let parser = Parser::default();
    let mut tokens = lex("1;").unwrap();
    let res = parser.parse(&mut tokens).unwrap();
    let target = vec![ASTNode::Function(Function {
        prototype: Prototype {
            name: "".to_string(),
            args: vec![],
        },
        body: literal(1.0),
    })];
    assert_eq!(res, target);
}

#[test]
fn extern_parse_works() {
    let parser = Parser::default();
    let mut tokens = lex("extern sin(x);").unwrap();
    let res = parser.parse(&mut tokens).unwrap();
    let target = vec![ASTNode::Extern(Prototype {
        name: "sin".to_string(),
        args: vec!["x".to_string()],
    })];
    assert_eq!(res, target);
}

#[test]
fn def_parse_works() {
    let parser = Parser::default();
    let mut tokens = lex("def add(x, y) x + y;").unwrap();
    let res = parser.parse(&mut tokens).unwrap();
    let target = vec![ASTNode::Function(Function {
        prototype: Prototype {
            name: "add".to_string(),
            args: vec!["x".to_string(), "y".to_string()],
        },
        body: Expression::Binary(
            "+".to_string(),
            Box::new(Expression::Variable("x".to_string())),
            Box::new(Expression::Variable("y".to_string())),
        ),
    })];
    assert_eq!(res, target);
    let mut tokens = lex("def one() 1.0;").unwrap();
    let res = parser.parse(&mut tokens).unwrap();
    let target = vec![ASTNode::Function(Function {
        prototype: Prototype {
            name: "one".to_string(),
            args: vec![],
        },
        body: literal(1.0),
    })];
    assert_eq!(res, target);
}

#[test]
fn parse_call_works() {
    let parser = Parser::default();
    let input = "add(1, 2)";
    let mut tokens = lex(input).unwrap();
    let res = parser.parse_expr(&mut tokens).unwrap();
    let target = Expression::Call("add".to_string(), vec![literal(1.0), literal(2.0)]);
    assert_eq!(res, target);
    let mut tokens = lex("one()").unwrap();
    let res = parser.parse_expr(&mut tokens).unwrap();
    let target = Expression::Call("one".to_string(), vec![]);
    assert_eq!(res, target);
}

#[test]
fn parse_expr_works() {
    let input = "x + 1 * (2 - 3)";
    let parser = Parser::default();
    let mut tokens = lex(input).unwrap();
    let res = parser.parse_expr(&mut tokens).unwrap();
    let target = Expression::Binary(
        "+".to_string(),
        Box::new(Expression::Variable("x".to_string())),
        Box::new(Expression::Binary(
            "*".to_string(),
            Box::new(literal(1.0)),
            Box::new(Expression::Binary(
                "-".to_string(),
                Box::new(literal(2.0)),
                Box::new(literal(3.0)),
            )),
        )),
    );
    assert_eq!(res, target);
}

#[test]
fn invalid_operator_works() {
    let input = "x : 1";
    let parser = Parser::default();
    let mut tokens = lex(input).unwrap();
    let res = parser.parse_expr(&mut tokens);
    assert_eq!(res, Err(ParserError::InvalidOperator(":".to_string())));
}

#[test]
fn invalid_token_works() {
    let input = "(1 + )";
    let parser = Parser::default();
    let mut tokens = lex(input).unwrap();
    let res = parser.parse_expr(&mut tokens);
    assert_eq!(res, Err(ParserError::InvalidToken(Token::CloseParen)));
}

#[test]
fn unexpected_eof_works() {
    let parser = Parser::default();
    let mut tokens = lex("1 + ").unwrap();
    let res = parser.parse_expr(&mut tokens);
    assert_eq!(res, Err(ParserError::UnexpectedEOF));
}

#[test]
fn equal_powers_fold_to_the_left() {
    let parser = Parser::default();
    let mut tokens = lex("1 - 2 - 3").unwrap();
    let res = parser.parse_expr(&mut tokens).unwrap();
    assert_eq!(res, binary("-", binary("-", literal(1.0), literal(2.0)), literal(3.0)));
    let mut tokens = lex("a / b * c / d").unwrap();
    let res = parser.parse_expr(&mut tokens).unwrap();
    assert_eq!(
        res,
        binary(
            "/",
            binary("*", binary("/", variable("a"), variable("b")), variable("c")),
            variable("d")
        )
    );
}

#[test]
fn tighter_operators_take_their_operands_first() {
    let parser = Parser::default();
    let mut tokens = lex("1 * 2 + 3").unwrap();
    let res = parser.parse_expr(&mut tokens).unwrap();
    assert_eq!(res, binary("+", binary("*", literal(1.0), literal(2.0)), literal(3.0)));
    let mut tokens = lex("1 + 2 * 3 - 4").unwrap();
    let res = parser.parse_expr(&mut tokens).unwrap();
    assert_eq!(
        res,
        binary(
            "-",
            binary("+", literal(1.0), binary("*", literal(2.0), literal(3.0))),
            literal(4.0)
        )
    );
}
