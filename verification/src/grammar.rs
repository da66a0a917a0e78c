//! What parsing means: the grammar as functions on sequences of tokens.
//!
//! ```text
//! program    := { item }
//! item       := "def" prototype expr | declaration prototype | ";" | expr
//! prototype  := ident "(" [ ident { "," ident } ] ")"
//! expr       := primary { operator primary }        (by binding power)
//! primary    := number | ident [ "(" [ expr { "," expr } ] ")" ] | "(" expr ")"
//! ```
//!
//! Each function takes the tokens that are still to be read, first token
//! first, and gives either what it read together with the tokens that
//! follow, or the first error.

use crate::ast::{ExprModel, FunctionModel, NodeModel, PrototypeModel};
use crate::lexer::TokenModel;
use vstd::prelude::*;

verus! {

/// The mathematical model of a parser error.
pub enum ParserErrorModel {
    InvalidToken(TokenModel),
    InvalidOperator(Seq<char>),
    UnexpectedEOF,
}

/// The binding power of each infix operator.
pub type Table = Map<Seq<char>, u32>;

/// The outcome of reading one construct: its value and the tokens behind
/// it, or an error.
pub type Step<T> = Result<(T, Seq<TokenModel>), ParserErrorModel>;

/// `step`, if it leaves fewer tokens than `before`.
///
/// Every reading function takes at least one token when it succeeds, and
/// extending an operand gives no token back, so this changes no outcome in
/// the definitions below (see [`lemma_shorter_is_identity`]): it only lets
/// them be seen to terminate.
pub open spec fn shorter<T>(step: Step<T>, before: Seq<TokenModel>) -> Step<T> {
    match step {
        Ok((value, rest)) => if rest.len() < before.len() {
            step
        } else {
            Err(ParserErrorModel::UnexpectedEOF)
        },
        Err(e) => Err(e),
    }
}

/// Reads the `)` that must follow `value`.
pub open spec fn close<T>(value: T, ts: Seq<TokenModel>) -> Step<T> {
    if ts.len() == 0 {
        Err(ParserErrorModel::UnexpectedEOF)
    } else if ts[0] is CloseParen {
        Ok((value, ts.skip(1)))
    } else {
        Err(ParserErrorModel::InvalidToken(ts[0]))
    }
}

/// Reads a numeric literal.
pub open spec fn parse_number(ts: Seq<TokenModel>) -> Step<ExprModel> {
    if ts.len() == 0 {
        Err(ParserErrorModel::UnexpectedEOF)
    } else {
        match ts[0] {
            TokenModel::Number(value) => Ok((ExprModel::Literal(value), ts.skip(1))),
            other => Err(ParserErrorModel::InvalidToken(other)),
        }
    }
}

/// Reads what begins with a name: a call if a `(` follows the name, and a
/// variable if not.
pub open spec fn parse_identifier(table: Table, ts: Seq<TokenModel>) -> Step<ExprModel>
    decreases ts.len(), 0nat,
{
    if ts.len() == 0 {
        Err(ParserErrorModel::UnexpectedEOF)
    } else {
        match ts[0] {
            TokenModel::Ident(name) => {
                if ts.len() > 1 && ts[1] is OpenParen {
                    if ts.len() > 2 && ts[2] is CloseParen {
                        Ok((ExprModel::Call(name, Seq::empty()), ts.skip(3)))
                    } else {
                        match parse_args(table, ts.skip(2)) {
                            Ok((args, rest)) => Ok((ExprModel::Call(name, args), rest)),
                            Err(e) => Err(e),
                        }
                    }
                } else {
                    Ok((ExprModel::Variable(name), ts.skip(1)))
                }
            },
            other => Err(ParserErrorModel::InvalidToken(other)),
        }
    }
}

/// Reads an expression in parentheses.
pub open spec fn parse_nested(table: Table, ts: Seq<TokenModel>) -> Step<ExprModel>
    decreases ts.len(), 0nat,
{
    if ts.len() == 0 {
        Err(ParserErrorModel::UnexpectedEOF)
    } else if ts[0] is OpenParen {
        match parse_expr(table, ts.skip(1)) {
            Ok((inner, rest)) => close(inner, rest),
            Err(e) => Err(e),
        }
    } else {
        Err(ParserErrorModel::InvalidToken(ts[0]))
    }
}

/// Reads a primary expression: a number, a variable, a call, or an
/// expression in parentheses.
pub open spec fn parse_primary(table: Table, ts: Seq<TokenModel>) -> Step<ExprModel>
    decreases ts.len(), 1nat,
{
    if ts.len() == 0 {
        Err(ParserErrorModel::UnexpectedEOF)
    } else {
        match ts[0] {
            TokenModel::Number(_) => parse_number(ts),
            TokenModel::Ident(_) => parse_identifier(table, ts),
            TokenModel::OpenParen => parse_nested(table, ts),
            other => Err(ParserErrorModel::InvalidToken(other)),
        }
    }
}

/// Reads the arguments of a call behind its `(`, when the list is not
/// empty: expressions separated by commas, then `)`.
pub open spec fn parse_args(table: Table, ts: Seq<TokenModel>) -> Step<Seq<ExprModel>>
    decreases ts.len(), 4nat,
{
    match shorter(parse_expr(table, ts), ts) {
        Err(e) => Err(e),
        Ok((first, rest)) => {
            if rest.len() == 0 {
                Err(ParserErrorModel::UnexpectedEOF)
            } else if rest[0] is Comma {
                match parse_args(table, rest.skip(1)) {
                    Ok((more, after)) => Ok((seq![first] + more, after)),
                    Err(e) => Err(e),
                }
            } else if rest[0] is CloseParen {
                Ok((seq![first], rest.skip(1)))
            } else {
                Err(ParserErrorModel::InvalidToken(rest[0]))
            }
        },
    }
}

/// Extends the left operand `lhs` by the operators that follow it and bind
/// at least as tightly as `min_power`.
///
/// After an operator and its right operand have been read, an operator that
/// binds more tightly than the one just read takes the right operand for
/// itself first. An operator without a binding power is an error.
pub open spec fn parse_rhs(
    table: Table,
    min_power: int,
    lhs: ExprModel,
    ts: Seq<TokenModel>,
) -> Step<ExprModel>
    decreases ts.len(), 2nat,
{
    if ts.len() > 0 && ts[0] is Operator {
        let symbol = ts[0]->Operator_0;
        if !table.contains_key(symbol) {
            Err(ParserErrorModel::InvalidOperator(symbol))
        } else if table[symbol] < min_power {
            Ok((lhs, ts))
        } else {
            match shorter(parse_primary(table, ts.skip(1)), ts) {
                Err(e) => Err(e),
                Ok((operand, rest)) => {
                    let tighter = rest.len() > 0 && rest[0] is Operator && table.contains_key(
                        rest[0]->Operator_0,
                    ) && table[rest[0]->Operator_0] > table[symbol];
                    let right = if tighter {
                        shorter(parse_rhs(table, table[symbol] + 1, operand, rest), ts)
                    } else {
                        Ok((operand, rest))
                    };
                    match right {
                        Err(e) => Err(e),
                        Ok((rhs, after)) => parse_rhs(
                            table,
                            min_power,
                            ExprModel::Binary(symbol, Box::new(lhs), Box::new(rhs)),
                            after,
                        ),
                    }
                },
            }
        }
    } else {
        Ok((lhs, ts))
    }
}

/// Reads an expression: a primary, extended by operators of any binding
/// power.
pub open spec fn parse_expr(table: Table, ts: Seq<TokenModel>) -> Step<ExprModel>
    decreases ts.len(), 3nat,
{
    match shorter(parse_primary(table, ts), ts) {
        Ok((lhs, rest)) => parse_rhs(table, 0, lhs, rest),
        Err(e) => Err(e),
    }
}

/// Reads the parameters of a signature behind its `(`, when the list is not
/// empty: names separated by commas, then `)`.
pub open spec fn parse_params(ts: Seq<TokenModel>) -> Step<Seq<Seq<char>>>
    decreases ts.len(),
{
    if ts.len() == 0 {
        Err(ParserErrorModel::UnexpectedEOF)
    } else if ts[0] is Ident {
        let rest = ts.skip(1);
        if rest.len() == 0 {
            Err(ParserErrorModel::UnexpectedEOF)
        } else if rest[0] is Comma {
            match parse_params(rest.skip(1)) {
                Ok((more, after)) => Ok((seq![ts[0]->Ident_0] + more, after)),
                Err(e) => Err(e),
            }
        } else if rest[0] is CloseParen {
            Ok((seq![ts[0]->Ident_0], rest.skip(1)))
        } else {
            Err(ParserErrorModel::InvalidToken(rest[0]))
        }
    } else {
        Err(ParserErrorModel::InvalidToken(ts[0]))
    }
}

/// Reads a signature: a name, `(`, names separated by commas, `)`.
pub open spec fn parse_prototype(ts: Seq<TokenModel>) -> Step<PrototypeModel> {
    if ts.len() == 0 {
        Err(ParserErrorModel::UnexpectedEOF)
    } else if !(ts[0] is Ident) {
        Err(ParserErrorModel::InvalidToken(ts[0]))
    } else if ts.len() == 1 {
        Err(ParserErrorModel::UnexpectedEOF)
    } else if !(ts[1] is OpenParen) {
        Err(ParserErrorModel::InvalidToken(ts[1]))
    } else if ts.len() > 2 && ts[2] is CloseParen {
        Ok((PrototypeModel { name: ts[0]->Ident_0, args: Seq::empty() }, ts.skip(3)))
    } else {
        match parse_params(ts.skip(2)) {
            Ok((args, rest)) => Ok((PrototypeModel { name: ts[0]->Ident_0, args }, rest)),
            Err(e) => Err(e),
        }
    }
}

/// Reads a function definition behind its keyword: a signature and the
/// expression that is its body.
pub open spec fn parse_function(table: Table, ts: Seq<TokenModel>) -> Step<NodeModel> {
    match parse_prototype(ts) {
        Ok((prototype, rest)) => match parse_expr(table, rest) {
            Ok((body, after)) => Ok(
                (NodeModel::Function(FunctionModel { prototype, body }), after),
            ),
            Err(e) => Err(e),
        },
        Err(e) => Err(e),
    }
}

/// Reads the declaration of an outside function behind its keyword: a
/// signature.
pub open spec fn parse_declaration(ts: Seq<TokenModel>) -> Step<NodeModel> {
    match parse_prototype(ts) {
        Ok((prototype, rest)) => Ok((NodeModel::Extern(prototype), rest)),
        Err(e) => Err(e),
    }
}

/// Reads a bare expression as the body of a function without a name and
/// without parameters.
pub open spec fn parse_lambda(table: Table, ts: Seq<TokenModel>) -> Step<NodeModel> {
    match parse_expr(table, ts) {
        Ok((body, rest)) => Ok(
            (
                NodeModel::Function(
                    FunctionModel {
                        prototype: PrototypeModel { name: Seq::empty(), args: Seq::empty() },
                        body,
                    },
                ),
                rest,
            ),
        ),
        Err(e) => Err(e),
    }
}

/// Reads the top-level item that begins with the first token of `ts`, which
/// is not a `;`.
pub open spec fn parse_item(table: Table, ts: Seq<TokenModel>) -> Step<NodeModel> {
    match ts[0] {
        TokenModel::Def => parse_function(table, ts.skip(1)),
        TokenModel::Extern => parse_declaration(ts.skip(1)),
        _ => parse_lambda(table, ts),
    }
}

/// Reads a whole program: top-level items, separated by any number of `;`,
/// until no token is left. The first error ends the reading.
pub open spec fn parse_program(table: Table, ts: Seq<TokenModel>) -> Result<
    Seq<NodeModel>,
    ParserErrorModel,
>
    decreases ts.len(),
{
    if ts.len() == 0 {
        Ok(Seq::empty())
    } else if ts[0] is Delimiter {
        parse_program(table, ts.skip(1))
    } else {
        match shorter(parse_item(table, ts), ts) {
            Ok((node, rest)) => match parse_program(table, rest) {
                Ok(nodes) => Ok(seq![node] + nodes),
                Err(e) => Err(e),
            },
            Err(e) => Err(e),
        }
    }
}

/// A primary expression that was read took at least one token.
pub proof fn lemma_primary_consumes(table: Table, ts: Seq<TokenModel>)
    ensures
        parse_primary(table, ts) matches Ok((_, rest)) ==> rest.len() < ts.len(),
    decreases ts.len(), 1nat,
{
    if ts.len() > 0 {
        match ts[0] {
            TokenModel::Ident(_) => lemma_identifier_consumes(table, ts),
            TokenModel::OpenParen => lemma_nested_consumes(table, ts),
            _ => {},
        }
    }
}

/// A variable or a call that was read took at least one token.
pub proof fn lemma_identifier_consumes(table: Table, ts: Seq<TokenModel>)
    ensures
        parse_identifier(table, ts) matches Ok((_, rest)) ==> rest.len() < ts.len(),
    decreases ts.len(), 0nat,
{
    if ts.len() > 1 && ts[0] is Ident && ts[1] is OpenParen {
        lemma_args_consume(table, ts.skip(2));
    }
}

/// An expression in parentheses that was read took at least one token.
pub proof fn lemma_nested_consumes(table: Table, ts: Seq<TokenModel>)
    ensures
        parse_nested(table, ts) matches Ok((_, rest)) ==> rest.len() < ts.len(),
    decreases ts.len(), 0nat,
{
    if ts.len() > 0 && ts[0] is OpenParen {
        lemma_expr_consumes(table, ts.skip(1));
    }
}

/// A list of arguments that was read took at least one token.
pub proof fn lemma_args_consume(table: Table, ts: Seq<TokenModel>)
    ensures
        parse_args(table, ts) matches Ok((_, rest)) ==> rest.len() < ts.len(),
    decreases ts.len(), 4nat,
{
    lemma_expr_consumes(table, ts);
    if let Ok((_, rest)) = shorter(parse_expr(table, ts), ts) {
        if rest.len() > 0 && rest[0] is Comma {
            lemma_args_consume(table, rest.skip(1));
        }
    }
}

/// Extending an operand never gives tokens back.
pub proof fn lemma_rhs_consumes(table: Table, min_power: int, lhs: ExprModel, ts: Seq<TokenModel>)
    ensures
        parse_rhs(table, min_power, lhs, ts) matches Ok((_, rest)) ==> rest.len() <= ts.len(),
    decreases ts.len(), 2nat,
{
    if ts.len() > 0 && ts[0] is Operator {
        let symbol = ts[0]->Operator_0;
        if table.contains_key(symbol) && table[symbol] >= min_power {
            if let Ok((operand, rest)) = shorter(parse_primary(table, ts.skip(1)), ts) {
                let tighter = rest.len() > 0 && rest[0] is Operator && table.contains_key(
                    rest[0]->Operator_0,
                ) && table[rest[0]->Operator_0] > table[symbol];
                let right = if tighter {
                    shorter(parse_rhs(table, table[symbol] + 1, operand, rest), ts)
                } else {
                    Ok((operand, rest))
                };
                if let Ok((rhs, after)) = right {
                    lemma_rhs_consumes(
                        table,
                        min_power,
                        ExprModel::Binary(symbol, Box::new(lhs), Box::new(rhs)),
                        after,
                    );
                }
            }
        }
    }
}

/// An expression that was read took at least one token.
pub proof fn lemma_expr_consumes(table: Table, ts: Seq<TokenModel>)
    ensures
        parse_expr(table, ts) matches Ok((_, rest)) ==> rest.len() < ts.len(),
    decreases ts.len(), 3nat,
{
    if let Ok((lhs, rest)) = shorter(parse_primary(table, ts), ts) {
        lemma_rhs_consumes(table, 0, lhs, rest);
    }
}

/// A signature that was read took at least one token.
pub proof fn lemma_params_consume(ts: Seq<TokenModel>)
    ensures
        parse_params(ts) matches Ok((_, rest)) ==> rest.len() < ts.len(),
    decreases ts.len(),
{
    if ts.len() > 1 && ts[0] is Ident && ts[1] is Comma {
        lemma_params_consume(ts.skip(1).skip(1));
    }
}

/// A top-level item that was read took at least one token.
pub proof fn lemma_item_consumes(table: Table, ts: Seq<TokenModel>)
    requires
        ts.len() > 0,
    ensures
        parse_item(table, ts) matches Ok((_, rest)) ==> rest.len() < ts.len(),
{
    match ts[0] {
        TokenModel::Def => {
            let after = ts.skip(1);
            if after.len() > 2 {
                lemma_params_consume(after.skip(2));
            }
            if let Ok((_, rest)) = parse_prototype(after) {
                lemma_expr_consumes(table, rest);
            }
        },
        TokenModel::Extern => {
            let after = ts.skip(1);
            if after.len() > 2 {
                lemma_params_consume(after.skip(2));
            }
        },
        _ => {
            lemma_expr_consumes(table, ts);
        },
    }
}

/// A program has no more top-level items than tokens.
pub proof fn lemma_item_count(table: Table, ts: Seq<TokenModel>)
    ensures
        parse_program(table, ts) matches Ok(nodes) ==> nodes.len() <= ts.len(),
    decreases ts.len(),
{
    if ts.len() > 0 {
        if ts[0] is Delimiter {
            lemma_item_count(table, ts.skip(1));
        } else if let Ok((_, rest)) = shorter(parse_item(table, ts), ts) {
            lemma_item_count(table, rest);
        }
    }
}

/// Nothing is lost by `shorter` where the definitions above use it:
/// whatever was read took at least one token, and extending an operand
/// behind a token that was taken gives no token back.
pub proof fn lemma_shorter_is_identity(table: Table, ts: Seq<TokenModel>)
    ensures
        shorter(parse_primary(table, ts), ts) == parse_primary(table, ts),
        shorter(parse_expr(table, ts), ts) == parse_expr(table, ts),
        ts.len() > 0 ==> shorter(parse_item(table, ts), ts) == parse_item(table, ts),
        ts.len() > 0 ==> shorter(parse_primary(table, ts.skip(1)), ts) == parse_primary(
            table,
            ts.skip(1),
        ),
        forall|min_power: int, lhs: ExprModel, rest: Seq<TokenModel>|
            rest.len() < ts.len() ==> shorter(
                #[trigger] parse_rhs(table, min_power, lhs, rest),
                ts,
            ) == parse_rhs(table, min_power, lhs, rest),
{
    lemma_primary_consumes(table, ts);
    lemma_expr_consumes(table, ts);
    if ts.len() > 0 {
        lemma_item_consumes(table, ts);
        lemma_primary_consumes(table, ts.skip(1));
    }
    assert forall|min_power: int, lhs: ExprModel, rest: Seq<TokenModel>|
        rest.len() < ts.len() implies shorter(
        #[trigger] parse_rhs(table, min_power, lhs, rest),
        ts,
    ) == parse_rhs(table, min_power, lhs, rest) by {
        lemma_rhs_consumes(table, min_power, lhs, rest);
    }
}

} // verus!
