//! What binding powers mean for the shape of the tree.
//!
//! An expression can be written without a pair of parentheses wherever the
//! binding powers alone give the nesting: round a left operand whose
//! operator binds at least as tightly as the operator above it, and round a
//! right operand whose operator binds more tightly. The law at the end of
//! this file says that parsing gives back every expression that was written
//! so, which fixes the tree that any mix of binding powers parses to.

use crate::ast::ExprModel;
use crate::grammar::{
    close, lemma_primary_consumes, parse_expr, parse_nested, parse_primary, parse_rhs,
    ParserErrorModel, Table,
};
use crate::lexer::TokenModel;
use crate::printer::{lemma_parse_printed_operand, print_expr, writable};
use vstd::prelude::*;

verus! {

/// Whether the operator at the root of `e` lets `e` stand without
/// parentheses where operators must bind at least as tightly as `least`.
pub open spec fn stands_bare(table: Table, e: ExprModel, least: int) -> bool {
    e matches ExprModel::Binary(symbol, _, _) && table[symbol] >= least
}

/// The writing of `e` with as few parentheses as the binding powers allow,
/// where operators must bind at least as tightly as `least`.
pub open spec fn print_sparse(table: Table, e: ExprModel, least: int) -> Seq<TokenModel>
    decreases e, least,
{
    match e {
        ExprModel::Binary(symbol, left, right) => {
            if table[symbol] >= least {
                print_sparse(table, *left, table[symbol] as int) + (seq![
                    TokenModel::Operator(symbol),
                ] + print_sparse(table, *right, table[symbol] + 1))
            } else {
                seq![TokenModel::OpenParen] + (print_sparse(table, e, 0) + seq![
                    TokenModel::CloseParen,
                ])
            }
        },
        _ => print_expr(e),
    }
}

/// The leftmost primary expression of the sparse writing of `e`.
pub open spec fn leftmost(table: Table, e: ExprModel, least: int) -> ExprModel
    decreases e,
{
    match e {
        ExprModel::Binary(symbol, left, right) => {
            if table[symbol] >= least {
                leftmost(table, *left, table[symbol] as int)
            } else {
                e
            }
        },
        _ => e,
    }
}

/// What the sparse writing of `e` holds behind its leftmost primary
/// expression.
pub open spec fn behind_leftmost(table: Table, e: ExprModel, least: int) -> Seq<TokenModel>
    decreases e,
{
    match e {
        ExprModel::Binary(symbol, left, right) => {
            if table[symbol] >= least {
                behind_leftmost(table, *left, table[symbol] as int) + (seq![
                    TokenModel::Operator(symbol),
                ] + print_sparse(table, *right, table[symbol] + 1))
            } else {
                Seq::empty()
            }
        },
        _ => Seq::empty(),
    }
}

/// Whether an expression that was written where operators must bind at
/// least as tightly as `least` may end where `ts` begins: `ts` does not
/// begin with `(`, nor with an operator that is unknown or binds more
/// tightly than `least`.
pub open spec fn calm(table: Table, ts: Seq<TokenModel>, least: int) -> bool {
    ts.len() > 0 ==> {
        &&& !(ts[0] is OpenParen)
        &&& ts[0] matches TokenModel::Operator(symbol) ==> table.contains_key(symbol)
            && table[symbol] <= least
    }
}

/// What stands behind the leftmost primary expression is empty exactly if
/// the expression is its own leftmost primary, and else begins with a known
/// operator that binds at least as tightly as `least`.
pub proof fn lemma_behind_leftmost(table: Table, e: ExprModel, least: int)
    requires
        writable(table, e),
    ensures
        !stands_bare(table, e, least) ==> leftmost(table, e, least) == e && behind_leftmost(
            table,
            e,
            least,
        ).len() == 0,
        stands_bare(table, e, least) ==> {
            let behind = behind_leftmost(table, e, least);
            &&& behind.len() > 0
            &&& behind[0] matches TokenModel::Operator(symbol)
            &&& table.contains_key(symbol)
            &&& table[symbol] >= least
        },
    decreases e,
{
    match e {
        ExprModel::Binary(symbol, left, right) => {
            if table[symbol] >= least {
                lemma_behind_leftmost(table, *left, table[symbol] as int);
                let inner = behind_leftmost(table, *left, table[symbol] as int);
                let outer = seq![TokenModel::Operator(symbol)] + print_sparse(
                    table,
                    *right,
                    table[symbol] + 1,
                );
                assert(outer[0] == TokenModel::Operator(symbol));
                if inner.len() > 0 {
                    assert((inner + outer)[0] == inner[0]);
                } else {
                    assert((inner + outer)[0] == outer[0]);
                }
            }
        },
        _ => {},
    }
}

/// Reading the sparse writing of `e`: the primary that is read first is the
/// leftmost one, and extending it over what stands behind it comes to
/// extending `e` over what follows the writing.
pub proof fn lemma_sparse_steps(
    table: Table,
    e: ExprModel,
    least: int,
    min_power: int,
    rest: Seq<TokenModel>,
)
    requires
        writable(table, e),
        0 <= min_power <= least,
        calm(table, rest, least),
    ensures
        parse_primary(table, print_sparse(table, e, least) + rest) == Ok::<
            (ExprModel, Seq<TokenModel>),
            ParserErrorModel,
        >((leftmost(table, e, least), behind_leftmost(table, e, least) + rest)),
        parse_rhs(
            table,
            min_power,
            leftmost(table, e, least),
            behind_leftmost(table, e, least) + rest,
        ) == parse_rhs(table, min_power, e, rest),
    decreases e, least,
{
    let ts = print_sparse(table, e, least) + rest;
    match e {
        ExprModel::Binary(symbol, left, right) => {
            let p = table[symbol] as int;
            if p >= least {
                let right_text = print_sparse(table, *right, p + 1);
                let tail = right_text + rest;
                let mid = seq![TokenModel::Operator(symbol)] + tail;
                assert(ts =~= print_sparse(table, *left, p) + mid);
                assert(mid[0] == TokenModel::Operator(symbol));
                lemma_sparse_steps(table, *left, p, min_power, mid);
                assert(behind_leftmost(table, e, least) + rest =~= behind_leftmost(
                    table,
                    *left,
                    p,
                ) + mid);
                assert(mid.skip(1) =~= tail);
                lemma_sparse_steps(table, *right, p + 1, p + 1, rest);
                lemma_behind_leftmost(table, *right, p + 1);
                lemma_primary_consumes(table, tail);
                let operand = leftmost(table, *right, p + 1);
                let behind = behind_leftmost(table, *right, p + 1);
                let after = behind + rest;
                assert(parse_rhs(table, p + 1, *right, rest) == Ok::<
                    (ExprModel, Seq<TokenModel>),
                    ParserErrorModel,
                >((*right, rest)));
                if stands_bare(table, *right, p + 1) {
                    assert(after[0] == behind[0]);
                } else {
                    assert(after =~= rest);
                }
                let folded = ExprModel::Binary(symbol, Box::new(*left), Box::new(*right));
                assert(folded == e);
                assert(parse_rhs(table, min_power, *left, mid) == parse_rhs(
                    table,
                    min_power,
                    folded,
                    rest,
                ));
            } else {
                let closing = seq![TokenModel::CloseParen] + rest;
                let inner = print_sparse(table, e, 0);
                assert(ts =~= seq![TokenModel::OpenParen] + (inner + closing));
                assert(ts[0] == TokenModel::OpenParen);
                assert(ts.skip(1) =~= inner + closing);
                assert(closing[0] == TokenModel::CloseParen);
                lemma_sparse_steps(table, e, 0, 0, closing);
                lemma_primary_consumes(table, inner + closing);
                assert(parse_rhs(table, 0, e, closing) == Ok::<
                    (ExprModel, Seq<TokenModel>),
                    ParserErrorModel,
                >((e, closing)));
                assert(parse_expr(table, inner + closing) == Ok::<
                    (ExprModel, Seq<TokenModel>),
                    ParserErrorModel,
                >((e, closing)));
                assert(closing.skip(1) =~= rest);
                assert(close(e, closing) == Ok::<(ExprModel, Seq<TokenModel>), ParserErrorModel>(
                    (e, rest),
                ));
                assert(parse_nested(table, ts) == Ok::<
                    (ExprModel, Seq<TokenModel>),
                    ParserErrorModel,
                >((e, rest)));
                assert(behind_leftmost(table, e, least) + rest =~= rest);
            }
        },
        _ => {
            lemma_parse_printed_operand(table, e, rest);
            assert(behind_leftmost(table, e, least) + rest =~= rest);
        },
    }
}

/// Binding powers fix the tree: parsing gives back every expression that is
/// written with as few parentheses as the binding powers allow, whatever
/// follows it, unless that begins with an operator or with `(`.
pub proof fn lemma_parse_sparse(table: Table, e: ExprModel, rest: Seq<TokenModel>)
    requires
        writable(table, e),
        rest.len() > 0 ==> !(rest[0] is Operator) && !(rest[0] is OpenParen),
    ensures
        parse_expr(table, print_sparse(table, e, 0) + rest) == Ok::<
            (ExprModel, Seq<TokenModel>),
            ParserErrorModel,
        >((e, rest)),
{
    lemma_sparse_steps(table, e, 0, 0, rest);
    lemma_primary_consumes(table, print_sparse(table, e, 0) + rest);
    assert(parse_rhs(table, 0, e, rest) == Ok::<(ExprModel, Seq<TokenModel>), ParserErrorModel>(
        (e, rest),
    ));
}

} // verus!
