//! Writing tokens and expressions as text, and what the tokenizer and the
//! parser make of what was written.

use crate::ast::ExprModel;
use crate::classes::{is_digit, is_letter, is_word, plain_ascii};
use crate::grammar::{
    parse_args, parse_expr, parse_primary, parse_rhs, shorter, ParserErrorModel, Table,
};
use crate::lexer::{
    def_keyword, digit_run_end, lemma_digit_run_end, lemma_lexeme_end,
    lemma_no_marker_no_comment, lemma_stripped_has_no_marker, lemma_tokens_are_shaped,
    lexeme_end, lexeme_token, number_end, outside_keyword, scan, shaped, strip_comments,
    tokens_of, word_run_end, LexErrorModel, TokenModel,
};
use crate::number::{
    digits_value, is_decimal_digit, lemma_model_text, lemma_point_index, lemma_reduce,
    lowest_terms, model_text, point_index, text_digits, text_scale,
};
use crate::printer::{
    lemma_expr_is_writable, lemma_print_then_parse, print_args, print_expr, print_operand,
    writable,
};
use vstd::prelude::*;

verus! {

/// A run of word characters ends at `end` if word characters stand from
/// `from` to `end` and none stands at `end`.
pub proof fn lemma_word_run_ends_at(s: Seq<char>, from: int, end: int)
    requires
        0 <= from <= end <= s.len(),
        forall|i: int| from <= i < end ==> is_word(#[trigger] s[i]),
        end < s.len() ==> !is_word(s[end]),
    ensures
        word_run_end(s, from) == end,
    decreases end - from,
{
    if from < end {
        lemma_word_run_ends_at(s, from + 1, end);
    }
}

/// A run of digits ends at `end` if digits stand from `from` to `end` and
/// none stands at `end`.
pub proof fn lemma_digit_run_ends_at(s: Seq<char>, from: int, end: int)
    requires
        0 <= from <= end <= s.len(),
        forall|i: int| from <= i < end ==> is_digit(#[trigger] s[i]),
        end < s.len() ==> !is_digit(s[end]),
    ensures
        digit_run_end(s, from) == end,
    decreases end - from,
{
    if from < end {
        lemma_digit_run_ends_at(s, from + 1, end);
    }
}

/// Runs do not look back: what stands before a position has no part in
/// where a run that begins there ends.
pub proof fn lemma_runs_shift(a: Seq<char>, b: Seq<char>, from: int)
    requires
        0 <= from <= b.len(),
    ensures
        word_run_end(a + b, a.len() + from) == a.len() + word_run_end(b, from),
        digit_run_end(a + b, a.len() + from) == a.len() + digit_run_end(b, from),
    decreases b.len() - from,
{
    if from < b.len() {
        assert((a + b)[a.len() + from] == b[from]);
        lemma_runs_shift(a, b, from + 1);
    }
}

/// The tokenizer does not look back: what stands before a position has no
/// part in the tokens from there on.
pub proof fn lemma_scan_shifts(a: Seq<char>, b: Seq<char>, from: int)
    requires
        0 <= from <= b.len(),
    ensures
        scan(a + b, a.len() + from) == scan(b, from),
    decreases b.len() - from,
{
    if from < b.len() {
        let s = a + b;
        let at = a.len() + from;
        assert(s[at] == b[from]);
        lemma_lexeme_end(b, from);
        lemma_runs_shift(a, b, from + 1);
        let whole = digit_run_end(b, from + 1);
        lemma_digit_run_end(b, from + 1);
        if whole < b.len() {
            assert(s[a.len() + whole] == b[whole]);
            lemma_runs_shift(a, b, whole + 1);
        }
        let end = lexeme_end(b, from);
        assert(lexeme_end(s, at) == a.len() + end);
        assert(s.subrange(at, a.len() + end) =~= b.subrange(from, end));
        lemma_scan_shifts(a, b, end);
    }
}

/// The text of a token.
pub open spec fn token_text(token: TokenModel) -> Seq<char> {
    match token {
        TokenModel::Def => def_keyword(),
        TokenModel::Extern => outside_keyword(),
        TokenModel::Delimiter => seq![';'],
        TokenModel::OpenParen => seq!['('],
        TokenModel::CloseParen => seq![')'],
        TokenModel::Comma => seq![','],
        TokenModel::Ident(name) => name,
        TokenModel::Operator(symbol) => symbol,
        TokenModel::Number(value) => model_text(value),
    }
}

/// The text of a sequence of tokens: each token, followed by a space.
pub open spec fn tokens_text(tokens: Seq<TokenModel>) -> Seq<char>
    decreases tokens.len(),
{
    if tokens.len() == 0 {
        Seq::empty()
    } else {
        token_text(tokens[0]) + (seq![' '] + tokens_text(tokens.skip(1)))
    }
}

/// Whether a token can be written and read back: it is shaped as the
/// tokenizer shapes its tokens, an operator is not `#`, and a number is in
/// lowest terms.
pub open spec fn readable(token: TokenModel) -> bool {
    &&& shaped(token)
    &&& token matches TokenModel::Operator(symbol) ==> symbol[0] != '#'
    &&& token matches TokenModel::Number(value) ==> lowest_terms(value)
}

/// The text of a readable token, whatever follows it after a space, is one
/// lexeme that stands for the token, and holds no `#`.
proof fn lemma_token_reads_back(token: TokenModel, rest: Seq<char>)
    requires
        plain_ascii(),
        readable(token),
    ensures
        token_text(token).len() > 0,
        forall|i: int| 0 <= i < token_text(token).len() ==> token_text(token)[i] != '#',
        lexeme_end(token_text(token) + (seq![' '] + rest), 0) == token_text(token).len(),
        lexeme_token(token_text(token)) == Some(Ok::<TokenModel, LexErrorModel>(token)),
{
    let tt = token_text(token);
    let s = tt + (seq![' '] + rest);
    let n = tt.len() as int;
    match token {
        TokenModel::Ident(name) => {
            assert(s[0] == name[0]);
            assert(s[n] == ' ');
            assert forall|i: int| 1 <= i < n implies is_word(#[trigger] s[i]) by {
                assert(s[i] == name[i]);
            }
            lemma_word_run_ends_at(s, 1, n);
            assert forall|i: int| 0 <= i < n implies tt[i] != '#' by {
                if i > 0 {
                    assert(is_word(name[i]));
                }
            }
        },
        TokenModel::Def => {
            assert(n == 3);
            assert(s[0] == 'd' && s[1] == 'e' && s[2] == 'f' && s[3] == ' ');
            assert(is_letter('d') && is_word('e') && is_word('f'));
            lemma_word_run_ends_at(s, 1, 3);
        },
        TokenModel::Extern => {
            assert(n == 6);
            assert(s[0] == 'e' && s[1] == 'x' && s[2] == 't' && s[3] == 'e' && s[4] == 'r' && s[5]
                == 'n' && s[6] == ' ');
            assert(is_letter('e') && is_word('x') && is_word('t') && is_word('e') && is_word('r')
                && is_word('n'));
            lemma_word_run_ends_at(s, 1, 6);
            assert(tt.len() != def_keyword().len());
        },
        TokenModel::Number(value) => {
            lemma_model_text(value);
            lemma_point_index(tt);
            let p = point_index(tt);
            assert(s[n] == ' ');
            assert forall|i: int| 0 <= i < n && i != p implies is_digit(#[trigger] s[i])
                && !is_letter(s[i]) by {
                assert(s[i] == tt[i]);
                assert(is_decimal_digit(tt[i]));
                assert(is_digit(tt[i]) && !is_letter(tt[i]));
            }
            assert(is_digit(s[0]) && !is_letter(s[0]));
            if p < n {
                assert(s[p] == '.');
                lemma_digit_run_ends_at(s, 1, p);
                lemma_digit_run_ends_at(s, p + 1, n);
            } else {
                lemma_digit_run_ends_at(s, 1, n);
            }
            assert(number_end(s, 0) == n);
            assert(tt[0] == s[0]);
        },
        TokenModel::Operator(symbol) => {
            assert(s[0] == symbol[0]);
        },
        _ => {
            assert(s[0] == tt[0]);
        },
    }
}

/// Whether every token of a sequence is readable.
pub open spec fn all_readable(tokens: Seq<TokenModel>) -> bool {
    forall|i: int| 0 <= i < tokens.len() ==> readable(#[trigger] tokens[i])
}

/// Readable tokens one after the other are readable, and so is every part
/// of them.
pub proof fn lemma_all_readable_concat(a: Seq<TokenModel>, b: Seq<TokenModel>)
    ensures
        all_readable(a + b) <==> all_readable(a) && all_readable(b),
{
    if all_readable(a + b) {
        assert forall|i: int| 0 <= i < a.len() implies readable(#[trigger] a[i]) by {
            assert((a + b)[i] == a[i]);
        }
        assert forall|i: int| 0 <= i < b.len() implies readable(#[trigger] b[i]) by {
            assert((a + b)[a.len() + i] == b[i]);
        }
    }
    if all_readable(a) && all_readable(b) {
        assert forall|i: int| 0 <= i < (a + b).len() implies readable(#[trigger] (a + b)[i]) by {
            if i < a.len() {
                assert((a + b)[i] == a[i]);
            } else {
                assert((a + b)[i] == b[i - a.len()]);
            }
        }
    }
}

/// Written tokens hold no `#`.
proof fn lemma_tokens_text_has_no_marker(tokens: Seq<TokenModel>)
    requires
        plain_ascii(),
        all_readable(tokens),
    ensures
        forall|i: int| 0 <= i < tokens_text(tokens).len() ==> tokens_text(tokens)[i] != '#',
    decreases tokens.len(),
{
    if tokens.len() > 0 {
        let first = token_text(tokens[0]);
        let others = tokens.skip(1);
        assert forall|i: int| 0 <= i < others.len() implies readable(#[trigger] others[i]) by {
            assert(others[i] == tokens[i + 1]);
        }
        lemma_tokens_text_has_no_marker(others);
        lemma_token_reads_back(tokens[0], tokens_text(others));
        let text = tokens_text(tokens);
        assert forall|i: int| 0 <= i < text.len() implies text[i] != '#' by {
            if i < first.len() {
                assert(text[i] == first[i]);
            } else if i == first.len() {
                assert(text[i] == ' ');
            } else {
                assert(text[i] == tokens_text(others)[i - first.len() - 1]);
            }
        }
    }
}

/// The text of readable tokens has exactly these tokens, where the classes
/// answer about plain ASCII as Unicode has them.
proof fn lemma_written_tokens(tokens: Seq<TokenModel>)
    requires
        plain_ascii(),
        all_readable(tokens),
    ensures
        scan(tokens_text(tokens), 0) == Ok::<Seq<TokenModel>, LexErrorModel>(tokens),
        tokens_of(tokens_text(tokens)) == Ok::<Seq<TokenModel>, LexErrorModel>(tokens),
    decreases tokens.len(),
{
    let text = tokens_text(tokens);
    lemma_tokens_text_has_no_marker(tokens);
    lemma_no_marker_no_comment(text);
    if tokens.len() == 0 {
        assert(tokens =~= Seq::<TokenModel>::empty());
    } else {
        let first = token_text(tokens[0]);
        let n = first.len() as int;
        let others = tokens.skip(1);
        let following = tokens_text(others);
        let spaced = seq![' '] + following;
        assert forall|i: int| 0 <= i < others.len() implies readable(#[trigger] others[i]) by {
            assert(others[i] == tokens[i + 1]);
        }
        lemma_written_tokens(others);
        lemma_token_reads_back(tokens[0], following);
        assert(text == first + spaced);
        assert(text.subrange(0, n) =~= first);
        assert(text[n] == ' ');
        assert(lexeme_end(text, n) == n + 1);
        assert(text.subrange(n, n + 1) =~= seq![' ']);
        assert(lexeme_token(seq![' ']) == None::<Result<TokenModel, LexErrorModel>>) by {
            assert(seq![' '][0] == ' ');
        }
        assert(text =~= (first + seq![' ']) + following);
        lemma_scan_shifts(first + seq![' '], following, 0);
        assert(scan(text, n + 1) == Ok::<Seq<TokenModel>, LexErrorModel>(others));
        assert(scan(text, n) == Ok::<Seq<TokenModel>, LexErrorModel>(others));
        assert(seq![tokens[0]] + others =~= tokens);
    }
}

/// Writing and tokenizing give the tokens back: if the classes answer about
/// plain ASCII as Unicode has them, the text of readable tokens has exactly
/// these tokens.
pub proof fn lemma_write_then_lex(tokens: Seq<TokenModel>)
    requires
        all_readable(tokens),
    ensures
        plain_ascii() ==> tokens_of(tokens_text(tokens)) == Ok::<Seq<TokenModel>, LexErrorModel>(
            tokens,
        ),
{
    if plain_ascii() {
        lemma_written_tokens(tokens);
    }
}

/// The canonical text of an expression: its canonical writing in tokens, as
/// text.
pub open spec fn write_expr(e: ExprModel) -> Seq<char> {
    tokens_text(print_expr(e))
}

/// Writing an expression as text and reading the text gives the expression
/// back: if the classes answer about plain ASCII as Unicode has them, and
/// the names, operators and numbers of the expression can be read back as
/// tokens, then the tokens of its canonical text parse to the expression,
/// with no token left over.
pub proof fn lemma_write_then_read(table: Table, e: ExprModel)
    requires
        writable(table, e),
        expr_readable(e),
    ensures
        plain_ascii() ==> tokens_of(write_expr(e)) == Ok::<Seq<TokenModel>, LexErrorModel>(
            print_expr(e),
        ),
        parse_expr(table, print_expr(e)) == Ok::<(ExprModel, Seq<TokenModel>), ParserErrorModel>(
            (e, Seq::empty()),
        ),
{
    lemma_printed_is_readable(e);
    lemma_write_then_lex(print_expr(e));
    lemma_print_then_parse(table, e);
}

/// Every token that the tokenizer gives from a text without `#` is
/// readable.
pub proof fn lemma_scanned_are_readable(s: Seq<char>, from: int)
    requires
        forall|i: int| 0 <= i < s.len() ==> s[i] != '#',
    ensures
        scan(s, from) matches Ok(tokens) ==> all_readable(tokens),
    decreases s.len() - from,
{
    if 0 <= from < s.len() {
        lemma_lexeme_end(s, from);
        let end = lexeme_end(s, from);
        let lexeme = s.subrange(from, end);
        lemma_scanned_are_readable(s, end);
        lemma_tokens_are_shaped(s, from);
        if let Some(Ok(token)) = lexeme_token(lexeme) {
            if let Ok(rest) = scan(s, end) {
                let tokens = seq![token] + rest;
                assert(tokens[0] == token);
                assert(lexeme[0] == s[from]);
                if token is Number {
                    lemma_reduce(digits_value(text_digits(lexeme)), text_scale(lexeme));
                }
                assert(readable(token));
                assert forall|i: int| 0 <= i < tokens.len() implies readable(
                    #[trigger] tokens[i],
                ) by {
                    if i > 0 {
                        assert(tokens[i] == rest[i - 1]);
                    }
                }
            }
        }
    }
}

/// Every token of a source text is readable.
pub proof fn lemma_lexed_are_readable(source: Seq<char>)
    ensures
        tokens_of(source) matches Ok(tokens) ==> all_readable(tokens),
{
    lemma_stripped_has_no_marker(source);
    lemma_scanned_are_readable(strip_comments(source), 0);
}

/// Whether the names, operators and numbers of an expression are readable
/// as tokens.
pub open spec fn expr_readable(e: ExprModel) -> bool
    decreases e,
{
    match e {
        ExprModel::Literal(value) => readable(TokenModel::Number(value)),
        ExprModel::Variable(name) => readable(TokenModel::Ident(name)),
        ExprModel::Binary(symbol, left, right) => readable(TokenModel::Operator(symbol))
            && expr_readable(*left) && expr_readable(*right),
        ExprModel::Call(callee, args) => readable(TokenModel::Ident(callee)) && forall|i: int|
            0 <= i < args.len() ==> expr_readable(#[trigger] args[i]),
    }
}

/// What is left of readable tokens is readable.
pub proof fn lemma_skip_readable(tokens: Seq<TokenModel>, k: int)
    requires
        all_readable(tokens),
        0 <= k <= tokens.len(),
    ensures
        all_readable(tokens.skip(k)),
{
    assert forall|i: int| 0 <= i < tokens.skip(k).len() implies readable(
        #[trigger] tokens.skip(k)[i],
    ) by {
        assert(tokens.skip(k)[i] == tokens[i + k]);
    }
}

/// A primary expression read from readable tokens is readable, and so is
/// what follows it.
pub proof fn lemma_primary_is_readable(table: Table, ts: Seq<TokenModel>)
    requires
        all_readable(ts),
    ensures
        parse_primary(table, ts) matches Ok((e, rest)) ==> expr_readable(e) && all_readable(rest),
    decreases ts.len(), 1nat,
{
    if ts.len() > 0 {
        assert(readable(ts[0]));
        match ts[0] {
            TokenModel::Number(_) => {
                lemma_skip_readable(ts, 1);
            },
            TokenModel::Ident(_) => {
                if ts.len() > 1 && ts[1] is OpenParen {
                    if ts.len() > 2 && ts[2] is CloseParen {
                        lemma_skip_readable(ts, 3);
                    } else {
                        lemma_skip_readable(ts, 2);
                        lemma_args_are_readable(table, ts.skip(2));
                    }
                } else {
                    lemma_skip_readable(ts, 1);
                }
            },
            TokenModel::OpenParen => {
                lemma_skip_readable(ts, 1);
                lemma_expr_is_readable(table, ts.skip(1));
                if let Ok((inner, rest)) = parse_expr(table, ts.skip(1)) {
                    if rest.len() > 0 {
                        lemma_skip_readable(rest, 1);
                    }
                }
            },
            _ => {},
        }
    }
}

/// The arguments read from readable tokens are readable, and so is what
/// follows them.
pub proof fn lemma_args_are_readable(table: Table, ts: Seq<TokenModel>)
    requires
        all_readable(ts),
    ensures
        parse_args(table, ts) matches Ok((args, rest)) ==> all_readable(rest) && forall|i: int|
            0 <= i < args.len() ==> expr_readable(#[trigger] args[i]),
    decreases ts.len(), 4nat,
{
    lemma_expr_is_readable(table, ts);
    if let Ok((first, rest)) = shorter(parse_expr(table, ts), ts) {
        if rest.len() > 0 {
            lemma_skip_readable(rest, 1);
            if rest[0] is Comma {
                lemma_args_are_readable(table, rest.skip(1));
            }
        }
    }
}

/// Extending a readable operand over readable tokens gives a readable
/// expression, and what follows it is readable.
pub proof fn lemma_rhs_is_readable(
    table: Table,
    min_power: int,
    lhs: ExprModel,
    ts: Seq<TokenModel>,
)
    requires
        all_readable(ts),
        expr_readable(lhs),
    ensures
        parse_rhs(table, min_power, lhs, ts) matches Ok((e, rest)) ==> expr_readable(e)
            && all_readable(rest),
    decreases ts.len(), 2nat,
{
    if ts.len() > 0 && ts[0] is Operator {
        let symbol = ts[0]->Operator_0;
        assert(readable(ts[0]));
        if table.contains_key(symbol) && table[symbol] >= min_power {
            lemma_skip_readable(ts, 1);
            lemma_primary_is_readable(table, ts.skip(1));
            if let Ok((operand, rest)) = shorter(parse_primary(table, ts.skip(1)), ts) {
                let tighter = rest.len() > 0 && rest[0] is Operator && table.contains_key(
                    rest[0]->Operator_0,
                ) && table[rest[0]->Operator_0] > table[symbol];
                if tighter {
                    lemma_rhs_is_readable(table, table[symbol] + 1, operand, rest);
                }
                let right = if tighter {
                    shorter(parse_rhs(table, table[symbol] + 1, operand, rest), ts)
                } else {
                    Ok((operand, rest))
                };
                if let Ok((rhs, after)) = right {
                    lemma_rhs_is_readable(
                        table,
                        min_power,
                        ExprModel::Binary(symbol, Box::new(lhs), Box::new(rhs)),
                        after,
                    );
                }
            }
        }
    }
}

/// An expression read from readable tokens is readable, and so is what
/// follows it.
pub proof fn lemma_expr_is_readable(table: Table, ts: Seq<TokenModel>)
    requires
        all_readable(ts),
    ensures
        parse_expr(table, ts) matches Ok((e, rest)) ==> expr_readable(e) && all_readable(rest),
    decreases ts.len(), 3nat,
{
    lemma_primary_is_readable(table, ts);
    if let Ok((lhs, rest)) = shorter(parse_primary(table, ts), ts) {
        lemma_rhs_is_readable(table, 0, lhs, rest);
    }
}

/// The canonical writing of a readable expression is made of readable
/// tokens.
pub proof fn lemma_printed_is_readable(e: ExprModel)
    requires
        expr_readable(e),
    ensures
        all_readable(print_expr(e)),
        all_readable(print_operand(e)),
    decreases e, 1nat,
{
    match e {
        ExprModel::Literal(value) => {},
        ExprModel::Variable(name) => {},
        ExprModel::Binary(symbol, left, right) => {
            lemma_printed_is_readable(*left);
            lemma_printed_is_readable(*right);
            let sign = seq![TokenModel::Operator(symbol)];
            assert(sign[0] == TokenModel::Operator(symbol));
            lemma_all_readable_concat(print_operand(*left), sign);
            lemma_all_readable_concat(print_operand(*left) + sign, print_operand(*right));
        },
        ExprModel::Call(callee, args) => {
            lemma_printed_args_are_readable(args);
            let head = seq![TokenModel::Ident(callee), TokenModel::OpenParen];
            assert(head[0] == TokenModel::Ident(callee));
            assert(head[1] == TokenModel::OpenParen);
            lemma_all_readable_concat(head, print_args(args));
            lemma_all_readable_concat(head + print_args(args), seq![TokenModel::CloseParen]);
        },
    }
    if e is Binary {
        lemma_all_readable_concat(seq![TokenModel::OpenParen], print_expr(e));
        lemma_all_readable_concat(
            seq![TokenModel::OpenParen] + print_expr(e),
            seq![TokenModel::CloseParen],
        );
    }
}

/// The canonical writing of readable arguments is made of readable tokens.
pub proof fn lemma_printed_args_are_readable(args: Seq<ExprModel>)
    requires
        forall|i: int| 0 <= i < args.len() ==> expr_readable(#[trigger] args[i]),
    ensures
        all_readable(print_args(args)),
    decreases args, 0nat,
{
    if args.len() == 1 {
        lemma_printed_is_readable(args[0]);
    } else if args.len() > 1 {
        let others = args.skip(1);
        lemma_printed_is_readable(args[0]);
        assert forall|i: int| 0 <= i < others.len() implies expr_readable(
            #[trigger] others[i],
        ) by {
            assert(others[i] == args[i + 1]);
        }
        lemma_printed_args_are_readable(others);
        lemma_all_readable_concat(print_expr(args[0]), seq![TokenModel::Comma]);
        lemma_all_readable_concat(print_expr(args[0]) + seq![TokenModel::Comma], print_args(others));
    }
}

/// Reading, writing and reading again is reading: whatever expression is
/// read from a source text is read again, whole, from its canonical text,
/// if the classes answer about plain ASCII as Unicode has them.
pub proof fn lemma_read_write_read(table: Table, source: Seq<char>)
    requires
        tokens_of(source) is Ok,
        parse_expr(table, tokens_of(source)->Ok_0) is Ok,
    ensures
        plain_ascii() ==> ({
            let e = parse_expr(table, tokens_of(source)->Ok_0)->Ok_0.0;
            &&& tokens_of(write_expr(e)) == Ok::<Seq<TokenModel>, LexErrorModel>(print_expr(e))
            &&& parse_expr(table, print_expr(e)) == Ok::<
                (ExprModel, Seq<TokenModel>),
                ParserErrorModel,
            >((e, Seq::empty()))
        }),
{
    let tokens = tokens_of(source)->Ok_0;
    let e = parse_expr(table, tokens)->Ok_0.0;
    lemma_lexed_are_readable(source);
    lemma_expr_is_readable(table, tokens);
    lemma_expr_is_writable(table, tokens);
    lemma_write_then_read(table, e);
}

} // verus!
