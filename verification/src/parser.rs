//! The parser: recursive descent for top-level items, precedence climbing for
//! expressions.
//!
//! The tokens are handed over as a stack whose top, the last element, is the
//! next token. Every function here consumes tokens from the top only, and
//! states its outcome by the function of the same name in
//! [`crate::grammar`].

use crate::ast::{expr_models, node_models, texts, ASTNode, Expression, Function, Prototype};
use crate::ast::{ExprModel, NodeModel};
use crate::grammar;
use crate::grammar::{ParserErrorModel, Step, Table};
use crate::classes::{classes_compile, CharClasses};
use crate::lexer::{lex_with, pending, tokens_of, LexError, LexErrorModel, Token, TokenModel};
use vstd::hash_map::StringHashMap;
use vstd::prelude::*;
use vstd::string::StringExecFns;

verus! {

/// Why a sequence of tokens is not a program.
#[derive(Debug, PartialEq)]
pub enum ParserError {
    /// A token that cannot stand where it was found.
    InvalidToken(Token),
    /// An operator without a binding power.
    InvalidOperator(String),
    /// The tokens ended where the grammar asks for more.
    UnexpectedEOF,
}

impl View for ParserError {
    type V = ParserErrorModel;

    open spec fn view(&self) -> ParserErrorModel {
        match self {
            ParserError::InvalidToken(token) => ParserErrorModel::InvalidToken(token@),
            ParserError::InvalidOperator(symbol) => ParserErrorModel::InvalidOperator(symbol@),
            ParserError::UnexpectedEOF => ParserErrorModel::UnexpectedEOF,
        }
    }
}

impl Clone for ParserError {
    fn clone(&self) -> (r: Self)
        ensures
            r@ == self@,
    {
        match self {
            ParserError::InvalidToken(token) => ParserError::InvalidToken(token.clone()),
            ParserError::InvalidOperator(symbol) => ParserError::InvalidOperator(symbol.clone()),
            ParserError::UnexpectedEOF => ParserError::UnexpectedEOF,
        }
    }
}

/// Why a source text is not a program.
#[derive(Debug, PartialEq)]
pub enum SourceError {
    /// The text could not be cut into tokens.
    Lex(LexError),
    /// The tokens are not a program.
    Parse(ParserError),
}

/// The mathematical model of a [`SourceError`].
pub enum SourceErrorModel {
    Lex(LexErrorModel),
    Parse(ParserErrorModel),
}

impl View for SourceError {
    type V = SourceErrorModel;

    open spec fn view(&self) -> SourceErrorModel {
        match self {
            SourceError::Lex(e) => SourceErrorModel::Lex(e@),
            SourceError::Parse(e) => SourceErrorModel::Parse(e@),
        }
    }
}

/// The program that a source text denotes under a table of operators: its
/// tokens, parsed. An error of the tokenizer comes before any error of the
/// parser.
pub open spec fn program_of(table: Table, source: Seq<char>) -> Result<
    Seq<NodeModel>,
    SourceErrorModel,
> {
    match tokens_of(source) {
        Ok(tokens) => match grammar::parse_program(table, tokens) {
            Ok(nodes) => Ok(nodes),
            Err(e) => Err(SourceErrorModel::Parse(e)),
        },
        Err(e) => Err(SourceErrorModel::Lex(e)),
    }
}

/// The result of parsing one expression.
pub type PartialParseResult = Result<Expression, ParserError>;

/// A parser with its table of operators.
pub struct Parser {
    /// The binding power of each infix operator. An operator that binds more
    /// tightly has a greater number.
    pub operator_precedence: StringHashMap<u32>,
}

/// Whether the stack `after` is what is left of the stack `before` when
/// tokens have been taken from its top.
pub open spec fn consumed(before: Seq<Token>, after: Seq<Token>) -> bool {
    after.len() <= before.len() && after == before.take(after.len() as int)
}

/// Whether a result and the stack that it left behind are what `step` asks
/// for: the value or the error that `step` names and, on success, the tokens
/// that it leaves.
pub open spec fn outcome<T: View>(
    step: Step<T::V>,
    r: Result<T, ParserError>,
    before: Seq<Token>,
    after: Seq<Token>,
) -> bool {
    &&& consumed(before, after)
    &&& match step {
        Ok((value, rest)) => r matches Ok(x) && x@ == value && pending(after) == rest,
        Err(e) => r matches Err(x) && x@ == e,
    }
}

/// The binding powers of the four arithmetic operators.
pub open spec fn default_table() -> Table {
    map![
        seq!['*'] => 40u32,
        seq!['/'] => 40u32,
        seq!['+'] => 20u32,
        seq!['-'] => 20u32,
    ]
}

/// Taking the top off a stack takes the first of the pending tokens.
pub proof fn lemma_pending_pop(stack: Seq<Token>)
    requires
        stack.len() > 0,
    ensures
        pending(stack)[0] == stack.last()@,
        pending(stack.drop_last()) == pending(stack).skip(1),
{
    assert(pending(stack.drop_last()) =~= pending(stack).skip(1));
}

/// A stack is what is left of itself when nothing has been taken.
pub proof fn lemma_consumed_refl(a: Seq<Token>)
    ensures
        consumed(a, a),
{
    assert(a =~= a.take(a.len() as int));
}

/// Taking tokens off a stack twice is taking tokens off it.
pub proof fn lemma_consumed_trans(a: Seq<Token>, b: Seq<Token>, c: Seq<Token>)
    requires
        consumed(a, b),
        consumed(b, c),
    ensures
        consumed(a, c),
{
    assert(c =~= a.take(c.len() as int));
}

impl Default for Parser {
    /// The parser of arithmetic: `*` and `/` bind with power 40, `+` and `-`
    /// with power 20.
    fn default() -> (r: Self)
        ensures
            r.table() == default_table(),
    {
        let mut operator_precedence = StringHashMap::<u32>::new();
        proof {
            reveal_strlit("*");
            reveal_strlit("/");
            reveal_strlit("+");
            reveal_strlit("-");
        }
        operator_precedence.insert(String::from_str("*"), 40);
        operator_precedence.insert(String::from_str("/"), 40);
        operator_precedence.insert(String::from_str("+"), 20);
        operator_precedence.insert(String::from_str("-"), 20);
        assert("*"@ =~= seq!['*']);
        assert("/"@ =~= seq!['/']);
        assert("+"@ =~= seq!['+']);
        assert("-"@ =~= seq!['-']);
        assert(operator_precedence@ =~= default_table());
        Parser { operator_precedence }
    }
}

/// The next token, if there is one. The stack stays as it is.
fn peek(input: &Vec<Token>) -> (r: Option<&Token>)
    ensures
        match r {
            Some(token) => input@.len() > 0 && *token == input@.last() && token@ == pending(
                input@,
            )[0],
            None => input@.len() == 0,
        },
        pending(input@).len() == input@.len(),
{
    let n = input.len();
    if n == 0 {
        None
    } else {
        proof {
            lemma_pending_pop(input@);
        }
        Some(&input[n - 1])
    }
}

/// Takes the next token off the stack, if there is one.
fn advance(input: &mut Vec<Token>) -> (r: Option<Token>)
    ensures
        consumed(old(input)@, final(input)@),
        pending(old(input)@).len() == old(input)@.len(),
        match r {
            Some(token) => {
                &&& old(input)@.len() > 0
                &&& token == old(input)@.last()
                &&& token@ == pending(old(input)@)[0]
                &&& final(input)@ == old(input)@.drop_last()
                &&& pending(final(input)@) == pending(old(input)@).skip(1)
            },
            None => old(input)@.len() == 0 && final(input)@ == old(input)@,
        },
{
    proof {
        if input@.len() > 0 {
            lemma_pending_pop(input@);
        }
    }
    let r = input.pop();
    assert(input@ =~= old(input)@.take(input@.len() as int));
    r
}

impl Parser {
    /// The table of operators as a mathematical map.
    pub open spec fn table(&self) -> Table {
        self.operator_precedence@
    }

    /// Reads a numeric literal.
    fn parse_number(&self, input: &mut Vec<Token>) -> (r: PartialParseResult)
        ensures
            outcome(grammar::parse_number(pending(old(input)@)), r, old(input)@, final(input)@),
            r is Ok ==> final(input)@.len() < old(input)@.len(),
    {
        match advance(input) {
            Some(Token::Number(value)) => Ok(Expression::Literal(value)),
            Some(token) => Err(ParserError::InvalidToken(token)),
            None => Err(ParserError::UnexpectedEOF),
        }
    }

    /// Reads what begins with a name: a call if a `(` follows the name, and
    /// a variable if not.
    #[verifier::loop_isolation(false)]
    fn parse_identifier(&self, input: &mut Vec<Token>) -> (r: PartialParseResult)
        ensures
            outcome(
                grammar::parse_identifier(self.table(), pending(old(input)@)),
                r,
                old(input)@,
                final(input)@,
            ),
            r is Ok ==> final(input)@.len() < old(input)@.len(),
        decreases old(input)@.len(), 0nat,
    {
        let ghost ts = pending(input@);
        let name = match advance(input) {
            Some(Token::Ident(name)) => name,
            Some(token) => {
                return Err(ParserError::InvalidToken(token));
            },
            None => {
                return Err(ParserError::UnexpectedEOF);
            },
        };
        let ghost named = input@;
        let call = match peek(input) {
            Some(Token::OpenParen) => true,
            _ => false,
        };
        if !call {
            return Ok(Expression::Variable(name));
        }
        advance(input);
        let ghost opened = input@;
        proof {
            lemma_consumed_trans(old(input)@, named, opened);
            assert(pending(opened) == ts.skip(2));
        }
        let empty = match peek(input) {
            Some(Token::CloseParen) => true,
            _ => false,
        };
        if empty {
            advance(input);
            let args: Vec<Expression> = Vec::new();
            proof {
                lemma_consumed_trans(old(input)@, opened, input@);
                assert(pending(input@) == ts.skip(3));
                Expression::lemma_call_model(name, args);
                assert(expr_models(args@) =~= Seq::<ExprModel>::empty());
            }
            return Ok(Expression::Call(name, args));
        }
        let mut args: Vec<Expression> = Vec::new();
        assert(expr_models(args@) + grammar::parse_args(self.table(), ts.skip(2))->Ok_0.0
            =~= grammar::parse_args(self.table(), ts.skip(2))->Ok_0.0);
        loop
            invariant
                consumed(old(input)@, input@),
                input@.len() < old(input)@.len(),
                match grammar::parse_args(self.table(), pending(input@)) {
                    Ok((more, rest)) => grammar::parse_args(self.table(), ts.skip(2)) == Ok::<
                        (Seq<ExprModel>, Seq<TokenModel>),
                        ParserErrorModel,
                    >((expr_models(args@) + more, rest)),
                    Err(e) => grammar::parse_args(self.table(), ts.skip(2)) == Err::<
                        (Seq<ExprModel>, Seq<TokenModel>),
                        ParserErrorModel,
                    >(e),
                },
            decreases input@.len(),
        {
            let ghost here = input@;
            let ghost before = expr_models(args@);
            let arg = match self.parse_expr(input) {
                Ok(arg) => arg,
                Err(e) => {
                    proof {
                        lemma_consumed_trans(old(input)@, here, input@);
                    }
                    return Err(e);
                },
            };
            let ghost read = input@;
            let next = advance(input);
            proof {
                lemma_consumed_trans(here, read, input@);
                lemma_consumed_trans(old(input)@, here, input@);
            }
            match next {
                None => {
                    return Err(ParserError::UnexpectedEOF);
                },
                Some(Token::Comma) => {
                    args.push(arg);
                    proof {
                        assert(expr_models(args@) =~= before.push(arg@));
                        let after = grammar::parse_args(self.table(), pending(input@));
                        if after is Ok {
                            assert(expr_models(args@) + after->Ok_0.0 =~= before + (seq![arg@]
                                + after->Ok_0.0));
                        }
                    }
                },
                Some(Token::CloseParen) => {
                    args.push(arg);
                    proof {
                        assert(expr_models(args@) =~= before + seq![arg@]);
                        Expression::lemma_call_model(name, args);
                    }
                    return Ok(Expression::Call(name, args));
                },
                Some(token) => {
                    return Err(ParserError::InvalidToken(token));
                },
            }
        }
    }

    /// Reads an expression in parentheses.
    fn parse_nested(&self, input: &mut Vec<Token>) -> (r: PartialParseResult)
        ensures
            outcome(
                grammar::parse_nested(self.table(), pending(old(input)@)),
                r,
                old(input)@,
                final(input)@,
            ),
            r is Ok ==> final(input)@.len() < old(input)@.len(),
        decreases old(input)@.len(), 0nat,
    {
        match advance(input) {
            Some(Token::OpenParen) => {},
            Some(token) => {
                return Err(ParserError::InvalidToken(token));
            },
            None => {
                return Err(ParserError::UnexpectedEOF);
            },
        }
        let ghost opened = input@;
        let inner = match self.parse_expr(input) {
            Ok(inner) => inner,
            Err(e) => {
                proof {
                    lemma_consumed_trans(old(input)@, opened, input@);
                }
                return Err(e);
            },
        };
        let ghost read = input@;
        let next = advance(input);
        proof {
            lemma_consumed_trans(opened, read, input@);
            lemma_consumed_trans(old(input)@, opened, input@);
        }
        match next {
            Some(Token::CloseParen) => Ok(inner),
            Some(token) => Err(ParserError::InvalidToken(token)),
            None => Err(ParserError::UnexpectedEOF),
        }
    }

    /// Reads a primary expression: a number, a variable, a call, or an
    /// expression in parentheses.
    fn parse_primary(&self, input: &mut Vec<Token>) -> (r: PartialParseResult)
        ensures
            outcome(
                grammar::parse_primary(self.table(), pending(old(input)@)),
                r,
                old(input)@,
                final(input)@,
            ),
            r is Ok ==> final(input)@.len() < old(input)@.len(),
        decreases old(input)@.len(), 1nat,
    {
        proof {
            lemma_consumed_refl(input@);
        }
        match peek(input) {
            None => Err(ParserError::UnexpectedEOF),
            Some(Token::Number(_)) => self.parse_number(input),
            Some(Token::Ident(_)) => self.parse_identifier(input),
            Some(Token::OpenParen) => self.parse_nested(input),
            Some(token) => Err(ParserError::InvalidToken(token.clone())),
        }
    }

    /// Extends the left operand `lhs` by the operators that follow it and
    /// bind at least as tightly as `expr_precedence`.
    ///
    /// The operators are folded from left to right. After an operator and
    /// its right operand have been read, an operator that binds more tightly
    /// than the one just read takes that operand for itself first. An
    /// operator without a binding power is an error.
    #[verifier::loop_isolation(false)]
    fn parse_rhs(&self, input: &mut Vec<Token>, expr_precedence: u32, lhs: &Expression) -> (r:
        PartialParseResult)
        ensures
            outcome(
                grammar::parse_rhs(
                    self.table(),
                    expr_precedence as int,
                    lhs@,
                    pending(old(input)@),
                ),
                r,
                old(input)@,
                final(input)@,
            ),
        decreases old(input)@.len(), 2nat,
    {
        let ghost goal = grammar::parse_rhs(
            self.table(),
            expr_precedence as int,
            lhs@,
            pending(old(input)@),
        );
        let mut result = lhs.clone();
        proof {
            lemma_consumed_refl(input@);
        }
        loop
            invariant
                consumed(old(input)@, input@),
                grammar::parse_rhs(
                    self.table(),
                    expr_precedence as int,
                    result@,
                    pending(input@),
                ) == goal,
            decreases input@.len(),
        {
            let ghost here = input@;
            let (operator, precedence) = match peek(input) {
                Some(Token::Operator(symbol)) => match self.operator_precedence.get(
                    symbol.as_str(),
                ) {
                    Some(power) => {
                        if *power >= expr_precedence {
                            (symbol.clone(), *power)
                        } else {
                            return Ok(result);
                        }
                    },
                    None => {
                        return Err(ParserError::InvalidOperator(symbol.clone()));
                    },
                },
                _ => {
                    return Ok(result);
                },
            };
            advance(input);
            let ghost taken = input@;
            let operand = match self.parse_primary(input) {
                Ok(operand) => operand,
                Err(e) => {
                    proof {
                        lemma_consumed_trans(here, taken, input@);
                        lemma_consumed_trans(old(input)@, here, input@);
                    }
                    return Err(e);
                },
            };
            let ghost read = input@;
            proof {
                lemma_consumed_trans(here, taken, read);
                lemma_consumed_trans(old(input)@, here, read);
            }
            let tighter = match peek(input) {
                Some(Token::Operator(symbol)) => match self.operator_precedence.get(
                    symbol.as_str(),
                ) {
                    Some(power) => precedence < *power,
                    None => false,
                },
                _ => false,
            };
            let rhs = if tighter {
                match self.parse_rhs(input, precedence + 1, &operand) {
                    Ok(rhs) => rhs,
                    Err(e) => {
                        proof {
                            lemma_consumed_trans(old(input)@, read, input@);
                        }
                        return Err(e);
                    },
                }
            } else {
                operand
            };
            proof {
                lemma_consumed_refl(read);
                lemma_consumed_trans(old(input)@, read, input@);
            }
            result = Expression::Binary(operator, Box::new(result), Box::new(rhs));
        }
    }

    /// Reads an expression: a primary, extended by operators of any binding
    /// power.
    pub fn parse_expr(&self, input: &mut Vec<Token>) -> (r: PartialParseResult)
        ensures
            outcome(
                grammar::parse_expr(self.table(), pending(old(input)@)),
                r,
                old(input)@,
                final(input)@,
            ),
            r is Ok ==> final(input)@.len() < old(input)@.len(),
        decreases old(input)@.len(), 3nat,
    {
        let lhs = match self.parse_primary(input) {
            Ok(lhs) => lhs,
            Err(e) => {
                return Err(e);
            },
        };
        let ghost read = input@;
        let r = self.parse_rhs(input, 0, &lhs);
        proof {
            lemma_consumed_trans(old(input)@, read, input@);
        }
        r
    }

    /// Reads a signature: a name, `(`, names separated by commas, `)`.
    #[verifier::loop_isolation(false)]
    fn parse_prototype(&self, input: &mut Vec<Token>) -> (r: Result<Prototype, ParserError>)
        ensures
            outcome(
                grammar::parse_prototype(pending(old(input)@)),
                r,
                old(input)@,
                final(input)@,
            ),
            r is Ok ==> final(input)@.len() < old(input)@.len(),
    {
        let ghost ts = pending(input@);
        let name = match advance(input) {
            Some(Token::Ident(name)) => name,
            Some(token) => {
                return Err(ParserError::InvalidToken(token));
            },
            None => {
                return Err(ParserError::UnexpectedEOF);
            },
        };
        let ghost named = input@;
        let opening = advance(input);
        proof {
            lemma_consumed_trans(old(input)@, named, input@);
        }
        match opening {
            Some(Token::OpenParen) => {},
            Some(token) => {
                return Err(ParserError::InvalidToken(token));
            },
            None => {
                return Err(ParserError::UnexpectedEOF);
            },
        }
        let ghost opened = input@;
        assert(pending(opened) == ts.skip(2));
        let mut args: Vec<String> = Vec::new();
        let empty = match peek(input) {
            Some(Token::CloseParen) => true,
            _ => false,
        };
        if empty {
            advance(input);
            proof {
                lemma_consumed_trans(old(input)@, opened, input@);
                assert(pending(input@) == ts.skip(3));
                assert(texts(args@) =~= Seq::<Seq<char>>::empty());
            }
            return Ok(Prototype { name, args });
        }
        assert(texts(args@) + grammar::parse_params(ts.skip(2))->Ok_0.0 =~= grammar::parse_params(
            ts.skip(2),
        )->Ok_0.0);
        loop
            invariant
                consumed(old(input)@, input@),
                input@.len() < old(input)@.len(),
                match grammar::parse_params(pending(input@)) {
                    Ok((more, rest)) => grammar::parse_params(ts.skip(2)) == Ok::<
                        (Seq<Seq<char>>, Seq<TokenModel>),
                        ParserErrorModel,
                    >((texts(args@) + more, rest)),
                    Err(e) => grammar::parse_params(ts.skip(2)) == Err::<
                        (Seq<Seq<char>>, Seq<TokenModel>),
                        ParserErrorModel,
                    >(e),
                },
            decreases input@.len(),
        {
            let ghost here = input@;
            let ghost before = texts(args@);
            let arg = match advance(input) {
                Some(Token::Ident(arg)) => arg,
                Some(token) => {
                    proof {
                        lemma_consumed_trans(old(input)@, here, input@);
                    }
                    return Err(ParserError::InvalidToken(token));
                },
                None => {
                    return Err(ParserError::UnexpectedEOF);
                },
            };
            let ghost read = input@;
            let next = advance(input);
            proof {
                lemma_consumed_trans(here, read, input@);
                lemma_consumed_trans(old(input)@, here, input@);
            }
            match next {
                None => {
                    return Err(ParserError::UnexpectedEOF);
                },
                Some(Token::Comma) => {
                    args.push(arg);
                    proof {
                        assert(texts(args@) =~= before.push(arg@));
                        let after = grammar::parse_params(pending(input@));
                        if after is Ok {
                            assert(texts(args@) + after->Ok_0.0 =~= before + (seq![arg@]
                                + after->Ok_0.0));
                        }
                    }
                },
                Some(Token::CloseParen) => {
                    args.push(arg);
                    proof {
                        assert(texts(args@) =~= before + seq![arg@]);
                    }
                    return Ok(Prototype { name, args });
                },
                Some(token) => {
                    return Err(ParserError::InvalidToken(token));
                },
            }
        }
    }

    /// Reads a function definition: its keyword, a signature, and the
    /// expression that is its body.
    fn parse_function(&self, input: &mut Vec<Token>) -> (r: Result<ASTNode, ParserError>)
        requires
            old(input)@.len() > 0,
        ensures
            outcome(
                grammar::parse_function(self.table(), pending(old(input)@).skip(1)),
                r,
                old(input)@,
                final(input)@,
            ),
            final(input)@.len() < old(input)@.len(),
    {
        advance(input);
        let ghost started = input@;
        let prototype = match self.parse_prototype(input) {
            Ok(prototype) => prototype,
            Err(e) => {
                proof {
                    lemma_consumed_trans(old(input)@, started, input@);
                }
                return Err(e);
            },
        };
        let ghost signed = input@;
        let r = self.parse_expr(input);
        proof {
            lemma_consumed_trans(started, signed, input@);
            lemma_consumed_trans(old(input)@, started, input@);
        }
        match r {
            Ok(body) => Ok(ASTNode::Function(Function { prototype, body })),
            Err(e) => Err(e),
        }
    }

    /// Reads the declaration of an outside function: its keyword and a
    /// signature.
    fn parse_extern(&self, input: &mut Vec<Token>) -> (r: Result<ASTNode, ParserError>)
        requires
            old(input)@.len() > 0,
        ensures
            outcome(
                grammar::parse_declaration(pending(old(input)@).skip(1)),
                r,
                old(input)@,
                final(input)@,
            ),
            final(input)@.len() < old(input)@.len(),
    {
        advance(input);
        let ghost started = input@;
        let r = self.parse_prototype(input);
        proof {
            lemma_consumed_trans(old(input)@, started, input@);
        }
        match r {
            Ok(prototype) => Ok(ASTNode::Extern(prototype)),
            Err(e) => Err(e),
        }
    }

    /// Reads a bare expression as the body of a function without a name and
    /// without parameters.
    fn parse_lambda(&self, input: &mut Vec<Token>) -> (r: Result<ASTNode, ParserError>)
        ensures
            outcome(
                grammar::parse_lambda(self.table(), pending(old(input)@)),
                r,
                old(input)@,
                final(input)@,
            ),
            r is Ok ==> final(input)@.len() < old(input)@.len(),
    {
        match self.parse_expr(input) {
            Ok(body) => {
                let args: Vec<String> = Vec::new();
                assert(texts(args@) =~= Seq::<Seq<char>>::empty());
                Ok(
                    ASTNode::Function(
                        Function { prototype: Prototype { name: String::new(), args }, body },
                    ),
                )
            },
            Err(e) => Err(e),
        }
    }

    /// Parses a whole program from a stack of tokens.
    ///
    /// The top-level items are read one after the other until the stack is
    /// empty: function definitions, declarations of outside functions, and
    /// bare expressions, each of which becomes a function without a name.
    /// `;` between items is skipped. The first error ends the parse, and no
    /// part of the program is returned then.
    #[verifier::loop_isolation(false)]
    pub fn parse(&self, input: &mut Vec<Token>) -> (r: Result<Vec<ASTNode>, ParserError>)
        ensures
            consumed(old(input)@, final(input)@),
            match grammar::parse_program(self.table(), pending(old(input)@)) {
                Ok(nodes) => r matches Ok(ast) && node_models(ast@) == nodes && final(input)@.len()
                    == 0,
                Err(e) => r matches Err(x) && x@ == e,
            },
    {
        let ghost ts = pending(input@);
        let mut ast: Vec<ASTNode> = Vec::new();
        proof {
            lemma_consumed_refl(input@);
            assert(node_models(ast@) + grammar::parse_program(self.table(), ts)->Ok_0
                =~= grammar::parse_program(self.table(), ts)->Ok_0);
        }
        while !input.is_empty()
            invariant
                consumed(old(input)@, input@),
                match grammar::parse_program(self.table(), pending(input@)) {
                    Ok(more) => grammar::parse_program(self.table(), ts) == Ok::<
                        Seq<NodeModel>,
                        ParserErrorModel,
                    >(node_models(ast@) + more),
                    Err(e) => grammar::parse_program(self.table(), ts) == Err::<
                        Seq<NodeModel>,
                        ParserErrorModel,
                    >(e),
                },
            decreases input@.len(),
        {
            let ghost here = input@;
            let ghost before = node_models(ast@);
            let item = match peek(input) {
                Some(Token::Delimiter) => {
                    advance(input);
                    proof {
                        lemma_consumed_trans(old(input)@, here, input@);
                    }
                    continue ;
                },
                Some(Token::Def) => self.parse_function(input),
                Some(Token::Extern) => self.parse_extern(input),
                _ => self.parse_lambda(input),
            };
            proof {
                lemma_consumed_trans(old(input)@, here, input@);
            }
            match item {
                Ok(node) => {
                    ast.push(node);
                    proof {
                        assert(node_models(ast@) =~= before.push(node@));
                        let after = grammar::parse_program(self.table(), pending(input@));
                        if after is Ok {
                            assert(node_models(ast@) + after->Ok_0 =~= before + (seq![node@]
                                + after->Ok_0));
                        }
                    }
                },
                Err(e) => {
                    return Err(e);
                },
            }
        }
        proof {
            assert(node_models(ast@) + Seq::<NodeModel>::empty() =~= node_models(ast@));
        }
        Ok(ast)
    }

    /// Parses a source text with the character classes given: the text is
    /// cut into tokens, and the tokens are parsed as a program.
    pub fn parse_str_with(&self, classes: &CharClasses, input: &str) -> (r: Result<
        Vec<ASTNode>,
        SourceError,
    >)
        ensures
            match program_of(self.table(), input@) {
                Ok(nodes) => r matches Ok(ast) && node_models(ast@) == nodes,
                Err(e) => r matches Err(x) && x@ == e,
            },
    {
        let mut tokens = match lex_with(classes, input) {
            Ok(tokens) => tokens,
            Err(e) => {
                return Err(SourceError::Lex(e));
            },
        };
        match self.parse(&mut tokens) {
            Ok(ast) => Ok(ast),
            Err(e) => Err(SourceError::Parse(e)),
        }
    }

    /// Parses a source text, as [`Parser::parse_str_with`] does with the
    /// character classes of [`CharClasses::new`].
    ///
    /// If the patterns of the classes do not compile, the result is the
    /// tokenizer's `Unavailable`, whatever the input.
    pub fn parse_str(&self, input: &str) -> (r: Result<Vec<ASTNode>, SourceError>)
        ensures
            classes_compile() ==> (match program_of(self.table(), input@) {
                Ok(nodes) => r matches Ok(ast) && node_models(ast@) == nodes,
                Err(e) => r matches Err(x) && x@ == e,
            }),
            !classes_compile() ==> (r matches Err(x) && x@ == SourceErrorModel::Lex(
                LexErrorModel::Unavailable,
            )),
    {
        match CharClasses::new() {
            Some(classes) => self.parse_str_with(&classes, input),
            None => Err(SourceError::Lex(LexError::Unavailable)),
        }
    }
}

} // verus!
