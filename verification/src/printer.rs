//! Writing expressions back as tokens, and what parsing makes of what was
//! written.
//!
//! The canonical writing of an expression puts every operand that is itself
//! a binary expression in parentheses. The laws at the end of this file say
//! that parsing undoes this writing, and that chains of operators of one
//! binding power fold to the left.

use crate::ast::ExprModel;
use crate::grammar::{
    close, lemma_expr_consumes, lemma_primary_consumes, parse_args, parse_expr, parse_identifier,
    parse_nested, parse_number, parse_primary, parse_rhs, shorter, ParserErrorModel, Step, Table,
};
use crate::lexer::TokenModel;
use vstd::prelude::*;

verus! {

/// The canonical writing of an expression.
pub open spec fn print_expr(e: ExprModel) -> Seq<TokenModel>
    decreases e, 0nat,
{
    match e {
        ExprModel::Literal(value) => seq![TokenModel::Number(value)],
        ExprModel::Variable(name) => seq![TokenModel::Ident(name)],
        ExprModel::Binary(symbol, left, right) => print_operand(*left) + seq![
            TokenModel::Operator(symbol),
        ] + print_operand(*right),
        ExprModel::Call(callee, args) => seq![TokenModel::Ident(callee), TokenModel::OpenParen]
            + print_args(args) + seq![TokenModel::CloseParen],
    }
}

/// The canonical writing of an expression where an operand stands: a binary
/// expression is put in parentheses.
pub open spec fn print_operand(e: ExprModel) -> Seq<TokenModel>
    decreases e, 1nat,
{
    if e is Binary {
        seq![TokenModel::OpenParen] + print_expr(e) + seq![TokenModel::CloseParen]
    } else {
        print_expr(e)
    }
}

/// The canonical writing of a list of arguments: the expressions, separated
/// by commas.
pub open spec fn print_args(args: Seq<ExprModel>) -> Seq<TokenModel>
    decreases args, 0nat,
{
    if args.len() == 0 {
        Seq::empty()
    } else if args.len() == 1 {
        print_expr(args[0])
    } else {
        print_expr(args[0]) + seq![TokenModel::Comma] + print_args(args.skip(1))
    }
}

/// Whether every operator of `e` has a binding power in `table`.
pub open spec fn writable(table: Table, e: ExprModel) -> bool
    decreases e,
{
    match e {
        ExprModel::Literal(_) => true,
        ExprModel::Variable(_) => true,
        ExprModel::Binary(symbol, left, right) => table.contains_key(symbol) && writable(
            table,
            *left,
        ) && writable(table, *right),
        ExprModel::Call(_, args) => forall|i: int|
            0 <= i < args.len() ==> writable(table, #[trigger] args[i]),
    }
}

/// Whether an expression may end where `ts` begins: `ts` starts neither with
/// an operator, which would extend the expression, nor with `(`, which would
/// turn a variable into a call.
pub open spec fn quiet(ts: Seq<TokenModel>) -> bool {
    ts.len() > 0 ==> !(ts[0] is Operator) && !(ts[0] is OpenParen)
}

/// Whether `token` can begin an expression.
pub open spec fn begins_expr(token: TokenModel) -> bool {
    token is Number || token is Ident || token is OpenParen
}

/// A written expression is not empty, and begins as expressions begin.
pub proof fn lemma_print_begins(e: ExprModel)
    ensures
        print_expr(e).len() > 0,
        begins_expr(print_expr(e)[0]),
        print_operand(e).len() > 0,
        begins_expr(print_operand(e)[0]),
    decreases e,
{
    match e {
        ExprModel::Binary(symbol, left, right) => {
            lemma_print_begins(*left);
        },
        _ => {},
    }
}

/// A written list of arguments that is not empty begins as expressions
/// begin.
pub proof fn lemma_print_args_begin(args: Seq<ExprModel>)
    requires
        args.len() > 0,
    ensures
        print_args(args).len() > 0,
        begins_expr(print_args(args)[0]),
{
    lemma_print_begins(args[0]);
}

/// Parsing a primary expression undoes the writing of an operand, whatever
/// follows it, unless a `(` follows a variable.
pub proof fn lemma_parse_printed_operand(table: Table, e: ExprModel, rest: Seq<TokenModel>)
    requires
        writable(table, e),
        e is Variable ==> !(rest.len() > 0 && rest[0] is OpenParen),
    ensures
        parse_primary(table, print_operand(e) + rest) == Ok::<
            (ExprModel, Seq<TokenModel>),
            ParserErrorModel,
        >((e, rest)),
    decreases e, (if e is Binary { 2nat } else { 0nat }),
{
    let ts = print_operand(e) + rest;
    match e {
        ExprModel::Literal(value) => {
            assert(ts[0] == TokenModel::Number(value));
            assert(ts.skip(1) =~= rest);
            assert(parse_number(ts) == Ok::<(ExprModel, Seq<TokenModel>), ParserErrorModel>(
                (e, rest),
            ));
        },
        ExprModel::Variable(name) => {
            assert(ts[0] == TokenModel::Ident(name));
            assert(ts.skip(1) =~= rest);
            if ts.len() > 1 {
                assert(ts[1] == rest[0]);
            }
            assert(parse_identifier(table, ts) == Ok::<
                (ExprModel, Seq<TokenModel>),
                ParserErrorModel,
            >((e, rest)));
        },
        ExprModel::Call(callee, args) => {
            assert(ts[0] == TokenModel::Ident(callee));
            assert(ts[1] == TokenModel::OpenParen);
            if args.len() == 0 {
                assert(print_args(args).len() == 0);
                assert(print_expr(e) =~= seq![
                    TokenModel::Ident(callee),
                    TokenModel::OpenParen,
                    TokenModel::CloseParen,
                ]);
                assert(ts[2] == TokenModel::CloseParen);
                assert(ts.skip(3) =~= rest);
                assert(args =~= Seq::<ExprModel>::empty());
            } else {
                lemma_print_args_begin(args);
                assert(ts[2] == print_args(args)[0]);
                let closing = seq![TokenModel::CloseParen] + rest;
                assert(ts.skip(2) =~= print_args(args) + closing);
                lemma_parse_printed_args(table, args, rest);
            }
            assert(parse_identifier(table, ts) == Ok::<
                (ExprModel, Seq<TokenModel>),
                ParserErrorModel,
            >((e, rest)));
        },
        ExprModel::Binary(symbol, left, right) => {
            let closing = seq![TokenModel::CloseParen] + rest;
            assert(ts[0] == TokenModel::OpenParen);
            assert(ts.skip(1) =~= print_expr(e) + closing);
            lemma_parse_printed_expr(table, e, closing);
            assert(closing[0] == TokenModel::CloseParen);
            assert(closing.skip(1) =~= rest);
            assert(close(e, closing) == Ok::<(ExprModel, Seq<TokenModel>), ParserErrorModel>(
                (e, rest),
            ));
            assert(parse_nested(table, ts) == Ok::<(ExprModel, Seq<TokenModel>), ParserErrorModel>(
                (e, rest),
            ));
        },
    }
}

/// Parsing an expression undoes its canonical writing, whatever follows it,
/// unless that begins with an operator or with `(`.
pub proof fn lemma_parse_printed_expr(table: Table, e: ExprModel, rest: Seq<TokenModel>)
    requires
        writable(table, e),
        quiet(rest),
    ensures
        parse_expr(table, print_expr(e) + rest) == Ok::<
            (ExprModel, Seq<TokenModel>),
            ParserErrorModel,
        >((e, rest)),
    decreases e, 1nat,
{
    let ts = print_expr(e) + rest;
    match e {
        ExprModel::Binary(symbol, left, right) => {
            let tail = print_operand(*right) + rest;
            let mid = seq![TokenModel::Operator(symbol)] + tail;
            assert(ts =~= print_operand(*left) + mid);
            lemma_print_begins(*left);
            lemma_print_begins(*right);
            assert(mid[0] == TokenModel::Operator(symbol));
            lemma_parse_printed_operand(table, *left, mid);
            assert(mid.skip(1) =~= tail);
            lemma_parse_printed_operand(table, *right, rest);
            let folded = ExprModel::Binary(symbol, Box::new(*left), Box::new(*right));
            assert(folded == e);
            assert(parse_rhs(table, 0, folded, rest) == Ok::<
                (ExprModel, Seq<TokenModel>),
                ParserErrorModel,
            >((folded, rest)));
            assert(parse_rhs(table, 0, *left, mid) == Ok::<
                (ExprModel, Seq<TokenModel>),
                ParserErrorModel,
            >((folded, rest)));
        },
        _ => {
            lemma_print_begins(e);
            lemma_parse_printed_operand(table, e, rest);
            assert(parse_rhs(table, 0, e, rest) == Ok::<
                (ExprModel, Seq<TokenModel>),
                ParserErrorModel,
            >((e, rest)));
        },
    }
}

/// Parsing a list of arguments undoes its canonical writing, up to the `)`
/// that ends the list.
pub proof fn lemma_parse_printed_args(table: Table, args: Seq<ExprModel>, rest: Seq<TokenModel>)
    requires
        args.len() > 0,
        forall|i: int| 0 <= i < args.len() ==> writable(table, #[trigger] args[i]),
    ensures
        parse_args(table, print_args(args) + (seq![TokenModel::CloseParen] + rest)) == Ok::<
            (Seq<ExprModel>, Seq<TokenModel>),
            ParserErrorModel,
        >((args, rest)),
    decreases args, 0nat,
{
    let closing = seq![TokenModel::CloseParen] + rest;
    let ts = print_args(args) + closing;
    lemma_print_begins(args[0]);
    if args.len() == 1 {
        assert(closing[0] == TokenModel::CloseParen);
        lemma_parse_printed_expr(table, args[0], closing);
        assert(closing.skip(1) =~= rest);
        assert(seq![args[0]] =~= args);
    } else {
        let others = args.skip(1);
        let following = print_args(others) + closing;
        let separated = seq![TokenModel::Comma] + following;
        assert(ts =~= print_expr(args[0]) + separated);
        assert(separated[0] == TokenModel::Comma);
        lemma_parse_printed_expr(table, args[0], separated);
        assert(separated.skip(1) =~= following);
        assert forall|i: int| 0 <= i < others.len() implies writable(
            table,
            #[trigger] others[i],
        ) by {
            assert(others[i] == args[i + 1]);
        }
        lemma_parse_printed_args(table, others, rest);
        assert(seq![args[0]] + others =~= args);
    }
}

/// Every operator of a primary expression that was read has a binding
/// power.
pub proof fn lemma_primary_is_writable(table: Table, ts: Seq<TokenModel>)
    ensures
        parse_primary(table, ts) matches Ok((e, _)) ==> writable(table, e),
    decreases ts.len(), 1nat,
{
    if ts.len() > 0 {
        match ts[0] {
            TokenModel::Ident(_) => {
                if ts.len() > 1 && ts[1] is OpenParen && !(ts.len() > 2 && ts[2] is CloseParen) {
                    lemma_args_are_writable(table, ts.skip(2));
                }
            },
            TokenModel::OpenParen => {
                lemma_expr_is_writable(table, ts.skip(1));
            },
            _ => {},
        }
    }
}

/// Every operator of the arguments that were read has a binding power.
pub proof fn lemma_args_are_writable(table: Table, ts: Seq<TokenModel>)
    ensures
        parse_args(table, ts) matches Ok((args, _)) ==> forall|i: int|
            0 <= i < args.len() ==> writable(table, #[trigger] args[i]),
    decreases ts.len(), 4nat,
{
    lemma_expr_is_writable(table, ts);
    if let Ok((first, rest)) = shorter(parse_expr(table, ts), ts) {
        if rest.len() > 0 && rest[0] is Comma {
            lemma_args_are_writable(table, rest.skip(1));
        }
    }
}

/// Extending a writable operand gives a writable expression.
pub proof fn lemma_rhs_is_writable(
    table: Table,
    min_power: int,
    lhs: ExprModel,
    ts: Seq<TokenModel>,
)
    requires
        writable(table, lhs),
    ensures
        parse_rhs(table, min_power, lhs, ts) matches Ok((e, _)) ==> writable(table, e),
    decreases ts.len(), 2nat,
{
    if ts.len() > 0 && ts[0] is Operator {
        let symbol = ts[0]->Operator_0;
        if table.contains_key(symbol) && table[symbol] >= min_power {
            lemma_primary_is_writable(table, ts.skip(1));
            if let Ok((operand, rest)) = shorter(parse_primary(table, ts.skip(1)), ts) {
                let tighter = rest.len() > 0 && rest[0] is Operator && table.contains_key(
                    rest[0]->Operator_0,
                ) && table[rest[0]->Operator_0] > table[symbol];
                if tighter {
                    lemma_rhs_is_writable(table, table[symbol] + 1, operand, rest);
                }
                let right = if tighter {
                    shorter(parse_rhs(table, table[symbol] + 1, operand, rest), ts)
                } else {
                    Ok((operand, rest))
                };
                if let Ok((rhs, after)) = right {
                    lemma_rhs_is_writable(
                        table,
                        min_power,
                        ExprModel::Binary(symbol, Box::new(lhs), Box::new(rhs)),
                        after,
                    );
                }
            }
        }
    }
}

/// Every operator of an expression that was read has a binding power.
pub proof fn lemma_expr_is_writable(table: Table, ts: Seq<TokenModel>)
    ensures
        parse_expr(table, ts) matches Ok((e, _)) ==> writable(table, e),
    decreases ts.len(), 3nat,
{
    lemma_primary_is_writable(table, ts);
    if let Ok((lhs, rest)) = shorter(parse_primary(table, ts), ts) {
        lemma_rhs_is_writable(table, 0, lhs, rest);
    }
}

/// Writing and parsing give the expression back: an expression whose
/// operators all have a binding power is the one and only thing that its
/// canonical writing parses to, and no token is left over.
pub proof fn lemma_print_then_parse(table: Table, e: ExprModel)
    requires
        writable(table, e),
    ensures
        parse_expr(table, print_expr(e)) == Ok::<(ExprModel, Seq<TokenModel>), ParserErrorModel>(
            (e, Seq::empty()),
        ),
{
    lemma_parse_printed_expr(table, e, Seq::empty());
    assert(print_expr(e) + Seq::<TokenModel>::empty() =~= print_expr(e));
}

/// Parsing, writing and parsing again give the same expression: whatever
/// expression was read from some tokens is read again, whole, from its
/// canonical writing.
pub proof fn lemma_parse_print_parse(table: Table, ts: Seq<TokenModel>)
    requires
        parse_expr(table, ts) is Ok,
    ensures
        parse_expr(table, print_expr(parse_expr(table, ts)->Ok_0.0)) == Ok::<
            (ExprModel, Seq<TokenModel>),
            ParserErrorModel,
        >((parse_expr(table, ts)->Ok_0.0, Seq::empty())),
{
    lemma_expr_is_writable(table, ts);
    lemma_print_then_parse(table, parse_expr(table, ts)->Ok_0.0);
}

/// The operators and operands of a chain, written one after the other: each
/// operator before its operand.
pub open spec fn print_chain(symbols: Seq<Seq<char>>, operands: Seq<ExprModel>) -> Seq<
    TokenModel,
>
    recommends
        symbols.len() == operands.len(),
    decreases symbols.len(),
{
    if symbols.len() == 0 || operands.len() == 0 {
        Seq::empty()
    } else {
        seq![TokenModel::Operator(symbols[0])] + print_operand(operands[0]) + print_chain(
            symbols.skip(1),
            operands.skip(1),
        )
    }
}

/// The chain folded to the left: the first operator joins `first` and the
/// first operand, the next operator joins that and the next operand, and so
/// on.
pub open spec fn fold_left(first: ExprModel, symbols: Seq<Seq<char>>, operands: Seq<ExprModel>)
    -> ExprModel
    recommends
        symbols.len() == operands.len(),
    decreases symbols.len(),
{
    if symbols.len() == 0 || operands.len() == 0 {
        first
    } else {
        fold_left(
            ExprModel::Binary(symbols[0], Box::new(first), Box::new(operands[0])),
            symbols.skip(1),
            operands.skip(1),
        )
    }
}

/// Operators of one binding power fold to the left, after any left operand.
pub proof fn lemma_rhs_folds_left(
    table: Table,
    min_power: int,
    lhs: ExprModel,
    symbols: Seq<Seq<char>>,
    operands: Seq<ExprModel>,
    rest: Seq<TokenModel>,
)
    requires
        symbols.len() == operands.len(),
        quiet(rest),
        forall|i: int| 0 <= i < operands.len() ==> writable(table, #[trigger] operands[i]),
        forall|i: int| 0 <= i < symbols.len() ==> table.contains_key(#[trigger] symbols[i]),
        forall|i: int, j: int|
            0 <= i < symbols.len() && 0 <= j < symbols.len() ==> table[symbols[i]]
                == table[symbols[j]],
        symbols.len() > 0 ==> min_power <= table[symbols[0]],
    ensures
        parse_rhs(table, min_power, lhs, print_chain(symbols, operands) + rest) == Ok::<
            (ExprModel, Seq<TokenModel>),
            ParserErrorModel,
        >((fold_left(lhs, symbols, operands), rest)),
    decreases symbols.len(),
{
    let ts = print_chain(symbols, operands) + rest;
    if symbols.len() == 0 {
        assert(ts =~= rest);
    } else {
        let later_symbols = symbols.skip(1);
        let later_operands = operands.skip(1);
        let following = print_chain(later_symbols, later_operands) + rest;
        let tail = print_operand(operands[0]) + following;
        assert(ts =~= seq![TokenModel::Operator(symbols[0])] + tail);
        assert(ts[0] == TokenModel::Operator(symbols[0]));
        assert(ts.skip(1) =~= tail);
        lemma_print_begins(operands[0]);
        if later_symbols.len() > 0 {
            assert(later_symbols[0] == symbols[1]);
            assert(following[0] == TokenModel::Operator(symbols[1]));
            assert(table[symbols[1]] == table[symbols[0]]);
        } else {
            assert(following =~= rest);
        }
        lemma_parse_printed_operand(table, operands[0], following);
        let folded = ExprModel::Binary(symbols[0], Box::new(lhs), Box::new(operands[0]));
        assert forall|i: int| 0 <= i < later_operands.len() implies writable(
            table,
            #[trigger] later_operands[i],
        ) by {
            assert(later_operands[i] == operands[i + 1]);
        }
        assert forall|i: int| 0 <= i < later_symbols.len() implies table.contains_key(
            #[trigger] later_symbols[i],
        ) by {
            assert(later_symbols[i] == symbols[i + 1]);
        }
        assert forall|i: int, j: int|
            0 <= i < later_symbols.len() && 0 <= j < later_symbols.len() implies table[later_symbols[i]]
            == table[later_symbols[j]] by {
            assert(later_symbols[i] == symbols[i + 1]);
            assert(later_symbols[j] == symbols[j + 1]);
        }
        lemma_rhs_folds_left(table, min_power, folded, later_symbols, later_operands, rest);
    }
}

/// Left-associativity: a chain of operands joined by operators of one
/// binding power parses as the chain folded to the left, never nested to the
/// right.
pub proof fn lemma_chain_folds_left(
    table: Table,
    first: ExprModel,
    symbols: Seq<Seq<char>>,
    operands: Seq<ExprModel>,
)
    requires
        symbols.len() == operands.len(),
        writable(table, first),
        forall|i: int| 0 <= i < operands.len() ==> writable(table, #[trigger] operands[i]),
        forall|i: int| 0 <= i < symbols.len() ==> table.contains_key(#[trigger] symbols[i]),
        forall|i: int, j: int|
            0 <= i < symbols.len() && 0 <= j < symbols.len() ==> table[symbols[i]]
                == table[symbols[j]],
    ensures
        parse_expr(table, print_operand(first) + print_chain(symbols, operands)) == Ok::<
            (ExprModel, Seq<TokenModel>),
            ParserErrorModel,
        >((fold_left(first, symbols, operands), Seq::empty())),
{
    let chain = print_chain(symbols, operands);
    let ts = print_operand(first) + chain;
    lemma_print_begins(first);
    if symbols.len() > 0 {
        assert(chain[0] == TokenModel::Operator(symbols[0]));
    }
    lemma_parse_printed_operand(table, first, chain);
    assert(chain + Seq::<TokenModel>::empty() =~= chain);
    lemma_rhs_folds_left(table, 0, first, symbols, operands, Seq::empty());
}

/// Precedence: of two operators in a row, the second takes the operand
/// between them if and only if it binds more tightly than the first.
/// Otherwise the first operator is folded before the second is read.
pub proof fn lemma_tighter_takes_operand(
    table: Table,
    a: ExprModel,
    first: Seq<char>,
    b: ExprModel,
    second: Seq<char>,
    c: ExprModel,
)
    requires
        writable(table, a),
        writable(table, b),
        writable(table, c),
        table.contains_key(first),
        table.contains_key(second),
    ensures
        parse_expr(
            table,
            print_operand(a) + seq![TokenModel::Operator(first)] + print_operand(b) + seq![
                TokenModel::Operator(second),
            ] + print_operand(c),
        ) == Ok::<(ExprModel, Seq<TokenModel>), ParserErrorModel>(
            (
                if table[second] > table[first] {
                    ExprModel::Binary(
                        first,
                        Box::new(a),
                        Box::new(ExprModel::Binary(second, Box::new(b), Box::new(c))),
                    )
                } else {
                    ExprModel::Binary(
                        second,
                        Box::new(ExprModel::Binary(first, Box::new(a), Box::new(b))),
                        Box::new(c),
                    )
                },
                Seq::empty(),
            ),
        ),
{
    let end = Seq::<TokenModel>::empty();
    let last = print_operand(c) + end;
    let after_b = seq![TokenModel::Operator(second)] + last;
    let from_b = print_operand(b) + after_b;
    let after_a = seq![TokenModel::Operator(first)] + from_b;
    let ts = print_operand(a) + after_a;
    assert(ts =~= print_operand(a) + seq![TokenModel::Operator(first)] + print_operand(b) + seq![
        TokenModel::Operator(second),
    ] + print_operand(c));
    lemma_print_begins(a);
    lemma_print_begins(b);
    lemma_print_begins(c);
    assert(after_a[0] == TokenModel::Operator(first));
    assert(after_b[0] == TokenModel::Operator(second));
    assert(after_a.skip(1) =~= from_b);
    assert(after_b.skip(1) =~= last);
    lemma_parse_printed_operand(table, a, after_a);
    lemma_parse_printed_operand(table, b, after_b);
    lemma_parse_printed_operand(table, c, end);
    let inner = ExprModel::Binary(second, Box::new(b), Box::new(c));
    if table[second] > table[first] {
        assert(parse_rhs(table, table[first] + 1, inner, end) == Ok::<
            (ExprModel, Seq<TokenModel>),
            ParserErrorModel,
        >((inner, end)));
        assert(parse_rhs(table, table[first] + 1, b, after_b) == Ok::<
            (ExprModel, Seq<TokenModel>),
            ParserErrorModel,
        >((inner, end)));
        let outer = ExprModel::Binary(first, Box::new(a), Box::new(inner));
        assert(parse_rhs(table, 0, outer, end) == Ok::<
            (ExprModel, Seq<TokenModel>),
            ParserErrorModel,
        >((outer, end)));
    } else {
        let left = ExprModel::Binary(first, Box::new(a), Box::new(b));
        let outer = ExprModel::Binary(second, Box::new(left), Box::new(c));
        assert(parse_rhs(table, 0, outer, end) == Ok::<
            (ExprModel, Seq<TokenModel>),
            ParserErrorModel,
        >((outer, end)));
        assert(parse_rhs(table, 0, left, after_b) == Ok::<
            (ExprModel, Seq<TokenModel>),
            ParserErrorModel,
        >((outer, end)));
    }
}

} // verus!
