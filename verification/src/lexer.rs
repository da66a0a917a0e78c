//! The tokenizer: comments are stripped, then the text is cut into tokens in
//! one pass from left to right.

use crate::classes::{classes_compile, is_digit, is_letter, is_solid, is_word, CharClasses};
use crate::number::{decimal_of, Decimal, DecimalModel};
use crate::text::{chars_of, text_of};
use vstd::prelude::*;

verus! {

/// One lexical unit of the language.
#[derive(Debug, PartialEq)]
pub enum Token {
    /// The keyword that begins a function definition.
    Def,
    /// The keyword that begins the declaration of an outside function.
    Extern,
    /// `;`, which separates top-level items.
    Delimiter,
    /// `(`
    OpenParen,
    /// `)`
    CloseParen,
    /// `,`
    Comma,
    /// A name.
    Ident(String),
    /// Any other visible character, on its own.
    Operator(String),
    /// A numeric literal.
    Number(Decimal),
}

/// The mathematical model of a [`Token`].
pub enum TokenModel {
    Def,
    Extern,
    Delimiter,
    OpenParen,
    CloseParen,
    Comma,
    Ident(Seq<char>),
    Operator(Seq<char>),
    Number(DecimalModel),
}

impl View for Token {
    type V = TokenModel;

    open spec fn view(&self) -> TokenModel {
        match self {
            Token::Def => TokenModel::Def,
            Token::Extern => TokenModel::Extern,
            Token::Delimiter => TokenModel::Delimiter,
            Token::OpenParen => TokenModel::OpenParen,
            Token::CloseParen => TokenModel::CloseParen,
            Token::Comma => TokenModel::Comma,
            Token::Ident(name) => TokenModel::Ident(name@),
            Token::Operator(symbol) => TokenModel::Operator(symbol@),
            Token::Number(value) => TokenModel::Number(value@),
        }
    }
}

impl Clone for Token {
    fn clone(&self) -> (r: Self)
        ensures
            r@ == self@,
    {
        match self {
            Token::Def => Token::Def,
            Token::Extern => Token::Extern,
            Token::Delimiter => Token::Delimiter,
            Token::OpenParen => Token::OpenParen,
            Token::CloseParen => Token::CloseParen,
            Token::Comma => Token::Comma,
            Token::Ident(name) => Token::Ident(name.clone()),
            Token::Operator(symbol) => Token::Operator(symbol.clone()),
            Token::Number(value) => Token::Number(value.clone()),
        }
    }
}

/// Why a text could not be cut into tokens.
#[derive(Debug, PartialEq)]
pub enum LexError {
    /// The character classes could not be prepared.
    Unavailable,
    /// A run of digits that is not written as a decimal number; it holds the
    /// run.
    MalformedNumber(String),
}

/// The mathematical model of a [`LexError`].
pub enum LexErrorModel {
    Unavailable,
    MalformedNumber(Seq<char>),
}

impl View for LexError {
    type V = LexErrorModel;

    open spec fn view(&self) -> LexErrorModel {
        match self {
            LexError::Unavailable => LexErrorModel::Unavailable,
            LexError::MalformedNumber(text) => LexErrorModel::MalformedNumber(text@),
        }
    }
}

/// The tokens of a stack in the order in which they will be consumed: the
/// top of the stack, which is its last element, comes first.
pub open spec fn pending(stack: Seq<Token>) -> Seq<TokenModel> {
    Seq::new(stack.len(), |i: int| stack[stack.len() - 1 - i]@)
}

/// Whether the last character of `prefix` belongs to a comment: a `#` stands
/// at or before it with no line break in between.
pub open spec fn in_comment(prefix: Seq<char>) -> bool
    decreases prefix.len(),
{
    if prefix.len() == 0 {
        false
    } else if prefix.last() == '\n' {
        false
    } else if prefix.last() == '#' {
        true
    } else {
        in_comment(prefix.drop_last())
    }
}

/// `text` without its comments. A comment runs from a `#` to the end of its
/// line; the line break itself stays.
pub open spec fn strip_comments(text: Seq<char>) -> Seq<char>
    decreases text.len(),
{
    if text.len() == 0 {
        text
    } else if in_comment(text) {
        strip_comments(text.drop_last())
    } else {
        strip_comments(text.drop_last()).push(text.last())
    }
}

/// The end of the longest run of word characters that begins at `from`.
pub open spec fn word_run_end(s: Seq<char>, from: int) -> int
    decreases s.len() - from,
{
    if 0 <= from < s.len() && is_word(s[from]) {
        word_run_end(s, from + 1)
    } else {
        from
    }
}

/// The end of the longest run of digits that begins at `from`.
pub open spec fn digit_run_end(s: Seq<char>, from: int) -> int
    decreases s.len() - from,
{
    if 0 <= from < s.len() && is_digit(s[from]) {
        digit_run_end(s, from + 1)
    } else {
        from
    }
}

/// The end of the number that begins with the digit at `from`: a run of
/// digits, then optionally a point and a further, possibly empty run.
pub open spec fn number_end(s: Seq<char>, from: int) -> int {
    let whole = digit_run_end(s, from + 1);
    if whole < s.len() && s[whole] == '.' {
        digit_run_end(s, whole + 1)
    } else {
        whole
    }
}

/// The end of the lexeme that begins at `from`. Names and numbers are as
/// long as they can be; everything else is one character.
pub open spec fn lexeme_end(s: Seq<char>, from: int) -> int {
    if is_letter(s[from]) {
        word_run_end(s, from + 1)
    } else if is_digit(s[from]) {
        number_end(s, from)
    } else {
        from + 1
    }
}

/// The text of the keyword that begins a function definition.
pub open spec fn def_keyword() -> Seq<char> {
    seq!['d', 'e', 'f']
}

/// The text of the keyword that begins the declaration of an outside
/// function.
pub open spec fn outside_keyword() -> Seq<char> {
    seq!['e', 'x', 't', 'e', 'r', 'n']
}

/// What a lexeme stands for, decided by its first character. The categories
/// are tried in this order: name or keyword, number, punctuation, operator.
/// White space stands for nothing.
pub open spec fn lexeme_token(lexeme: Seq<char>) -> Option<Result<TokenModel, LexErrorModel>> {
    let first = lexeme[0];
    if is_letter(first) {
        if lexeme == def_keyword() {
            Some(Ok(TokenModel::Def))
        } else if lexeme == outside_keyword() {
            Some(Ok(TokenModel::Extern))
        } else {
            Some(Ok(TokenModel::Ident(lexeme)))
        }
    } else if is_digit(first) {
        match decimal_of(lexeme) {
            Some(value) => Some(Ok(TokenModel::Number(value))),
            None => Some(Err(LexErrorModel::MalformedNumber(lexeme))),
        }
    } else if first == ';' {
        Some(Ok(TokenModel::Delimiter))
    } else if first == '(' {
        Some(Ok(TokenModel::OpenParen))
    } else if first == ')' {
        Some(Ok(TokenModel::CloseParen))
    } else if first == ',' {
        Some(Ok(TokenModel::Comma))
    } else if is_solid(first) {
        Some(Ok(TokenModel::Operator(lexeme)))
    } else {
        None
    }
}

/// The tokens of `s` from position `from` on, in source order, or the first
/// error met.
pub open spec fn scan(s: Seq<char>, from: int) -> Result<Seq<TokenModel>, LexErrorModel>
    decreases s.len() - from,
{
    if 0 <= from < s.len() {
        proof {
            lemma_lexeme_end(s, from);
        }
        let end = lexeme_end(s, from);
        match lexeme_token(s.subrange(from, end)) {
            None => scan(s, end),
            Some(Err(e)) => Err(e),
            Some(Ok(token)) => match scan(s, end) {
                Ok(rest) => Ok(seq![token] + rest),
                Err(e) => Err(e),
            },
        }
    } else {
        Ok(Seq::empty())
    }
}

/// The tokens of a source text, in source order, or the first error met.
pub open spec fn tokens_of(source: Seq<char>) -> Result<Seq<TokenModel>, LexErrorModel> {
    scan(strip_comments(source), 0)
}

/// A run of word characters lies within the text, holds word characters
/// only, and cannot be made longer.
pub proof fn lemma_word_run_end(s: Seq<char>, from: int)
    requires
        0 <= from <= s.len(),
    ensures
        from <= word_run_end(s, from) <= s.len(),
        forall|i: int| from <= i < word_run_end(s, from) ==> is_word(#[trigger] s[i]),
        word_run_end(s, from) < s.len() ==> !is_word(s[word_run_end(s, from)]),
    decreases s.len() - from,
{
    if from < s.len() && is_word(s[from]) {
        lemma_word_run_end(s, from + 1);
    }
}

/// A run of digits lies within the text, holds digits only, and cannot be
/// made longer.
pub proof fn lemma_digit_run_end(s: Seq<char>, from: int)
    requires
        0 <= from <= s.len(),
    ensures
        from <= digit_run_end(s, from) <= s.len(),
        forall|i: int| from <= i < digit_run_end(s, from) ==> is_digit(#[trigger] s[i]),
        digit_run_end(s, from) < s.len() ==> !is_digit(s[digit_run_end(s, from)]),
    decreases s.len() - from,
{
    if from < s.len() && is_digit(s[from]) {
        lemma_digit_run_end(s, from + 1);
    }
}

/// Every lexeme holds at least one character and lies within the text.
pub proof fn lemma_lexeme_end(s: Seq<char>, from: int)
    requires
        0 <= from < s.len(),
    ensures
        from < lexeme_end(s, from) <= s.len(),
{
    lemma_word_run_end(s, from + 1);
    lemma_digit_run_end(s, from + 1);
    let whole = digit_run_end(s, from + 1);
    if whole < s.len() {
        lemma_digit_run_end(s, whole + 1);
    }
}

/// Whether a comment that begins at `start` reaches the end of `prefix`: a
/// `#` stands at `start`, and no line break stands at or behind it.
pub open spec fn comment_from(prefix: Seq<char>, start: int) -> bool {
    &&& 0 <= start < prefix.len()
    &&& prefix[start] == '#'
    &&& forall|k: int| start <= k < prefix.len() ==> prefix[k] != '\n'
}

/// A character belongs to a comment exactly if a `#` stands at or before it
/// on its line.
pub proof fn lemma_in_comment(prefix: Seq<char>)
    ensures
        in_comment(prefix) <==> exists|start: int| comment_from(prefix, start),
    decreases prefix.len(),
{
    if prefix.len() > 0 {
        let shorter = prefix.drop_last();
        let end = prefix.len() - 1;
        lemma_in_comment(shorter);
        if prefix.last() == '\n' {
            assert forall|start: int| !comment_from(prefix, start) by {
                if 0 <= start < prefix.len() {
                    assert(prefix[end] == '\n');
                }
            }
        } else if prefix.last() == '#' {
            assert(comment_from(prefix, end));
        } else {
            if in_comment(shorter) {
                let start = choose|start: int| comment_from(shorter, start);
                assert(comment_from(prefix, start)) by {
                    assert forall|k: int| start <= k < prefix.len() implies prefix[k] != '\n' by {
                        if k < end {
                            assert(shorter[k] == prefix[k]);
                        }
                    }
                }
            }
            if exists|start: int| comment_from(prefix, start) {
                let start = choose|start: int| comment_from(prefix, start);
                assert(comment_from(shorter, start)) by {
                    assert forall|k: int| start <= k < shorter.len() implies shorter[k] != '\n' by {
                        assert(shorter[k] == prefix[k]);
                    }
                }
            }
        }
    }
}

/// In a text without `#` nothing belongs to a comment.
pub proof fn lemma_no_marker_no_comment(text: Seq<char>)
    requires
        forall|i: int| 0 <= i < text.len() ==> text[i] != '#',
    ensures
        !in_comment(text),
        strip_comments(text) == text,
    decreases text.len(),
{
    if text.len() > 0 {
        lemma_no_marker_no_comment(text.drop_last());
        assert(text.drop_last().push(text.last()) == text);
    }
}

/// What is left after stripping holds no `#`, and is no longer than the
/// text.
pub proof fn lemma_stripped_has_no_marker(text: Seq<char>)
    ensures
        strip_comments(text).len() <= text.len(),
        forall|i: int| 0 <= i < strip_comments(text).len() ==> strip_comments(text)[i] != '#',
    decreases text.len(),
{
    if text.len() > 0 {
        lemma_stripped_has_no_marker(text.drop_last());
    }
}

/// Stripping comments twice is the same as stripping them once.
pub proof fn lemma_strip_idempotent(text: Seq<char>)
    ensures
        strip_comments(strip_comments(text)) == strip_comments(text),
{
    lemma_stripped_has_no_marker(text);
    lemma_no_marker_no_comment(strip_comments(text));
}

/// Whether a token is shaped as the tokenizer shapes its tokens: a name
/// begins with a letter, goes on with word characters and is no keyword; an
/// operator is one visible character that begins neither a name nor a number
/// and is no punctuation.
pub open spec fn shaped(token: TokenModel) -> bool {
    match token {
        TokenModel::Ident(name) => {
            &&& name.len() > 0
            &&& is_letter(name[0])
            &&& forall|i: int| 0 < i < name.len() ==> is_word(#[trigger] name[i])
            &&& name != def_keyword()
            &&& name != outside_keyword()
        },
        TokenModel::Operator(symbol) => {
            &&& symbol.len() == 1
            &&& is_solid(symbol[0])
            &&& !is_letter(symbol[0])
            &&& !is_digit(symbol[0])
            &&& symbol[0] != ';'
            &&& symbol[0] != '('
            &&& symbol[0] != ')'
            &&& symbol[0] != ','
        },
        _ => true,
    }
}

/// Every token that the tokenizer gives is shaped as [`shaped`] says.
pub proof fn lemma_tokens_are_shaped(s: Seq<char>, from: int)
    ensures
        scan(s, from) matches Ok(tokens) ==> forall|i: int|
            0 <= i < tokens.len() ==> shaped(#[trigger] tokens[i]),
    decreases s.len() - from,
{
    if 0 <= from < s.len() {
        lemma_lexeme_end(s, from);
        let end = lexeme_end(s, from);
        let lexeme = s.subrange(from, end);
        lemma_tokens_are_shaped(s, end);
        if is_letter(s[from]) {
            lemma_word_run_end(s, from + 1);
            assert forall|i: int| 0 < i < lexeme.len() implies is_word(#[trigger] lexeme[i]) by {
                assert(lexeme[i] == s[from + i]);
            }
        }
        if let Some(Ok(token)) = lexeme_token(lexeme) {
            assert(shaped(token));
            if let Ok(rest) = scan(s, end) {
                let tokens = seq![token] + rest;
                assert forall|i: int| 0 <= i < tokens.len() implies shaped(
                    #[trigger] tokens[i],
                ) by {
                    if i > 0 {
                        assert(tokens[i] == rest[i - 1]);
                    }
                }
            }
        }
    }
}

/// There are no more tokens than characters.
pub proof fn lemma_token_count(s: Seq<char>, from: int)
    requires
        0 <= from <= s.len(),
    ensures
        scan(s, from) matches Ok(tokens) ==> tokens.len() <= s.len() - from,
    decreases s.len() - from,
{
    if from < s.len() {
        lemma_lexeme_end(s, from);
        lemma_token_count(s, lexeme_end(s, from));
    }
}

/// A source text has no more tokens than characters.
pub proof fn lemma_source_token_count(source: Seq<char>)
    ensures
        tokens_of(source) matches Ok(tokens) ==> tokens.len() <= source.len(),
{
    lemma_stripped_has_no_marker(source);
    lemma_token_count(strip_comments(source), 0);
}

/// A text and what is left of it without its comments have the same
/// tokens.
pub proof fn lemma_tokens_ignore_comments(source: Seq<char>)
    ensures
        tokens_of(strip_comments(source)) == tokens_of(source),
{
    lemma_strip_idempotent(source);
}

/// Comments end with their line: a text is stripped line by line, and the
/// line breaks stay where they are.
pub proof fn lemma_strip_line_by_line(head: Seq<char>, tail: Seq<char>)
    ensures
        strip_comments(head + seq!['\n'] + tail) == strip_comments(head) + seq!['\n']
            + strip_comments(tail),
        tail.len() > 0 ==> in_comment(head + seq!['\n'] + tail) == in_comment(tail),
    decreases tail.len(),
{
    let whole = head + seq!['\n'] + tail;
    if tail.len() == 0 {
        assert(whole.drop_last() == head);
        assert(strip_comments(tail) == tail);
        assert(strip_comments(head).push('\n') == strip_comments(head) + seq!['\n'] + tail);
    } else {
        let shorter = tail.drop_last();
        lemma_strip_line_by_line(head, shorter);
        assert(whole.drop_last() == head + seq!['\n'] + shorter);
        assert(whole.last() == tail.last());
        if shorter.len() == 0 {
            assert(whole.drop_last().last() == '\n');
            assert(!in_comment(whole.drop_last()));
            assert(!in_comment(shorter));
        }
        assert(in_comment(whole) == in_comment(tail));
        if !in_comment(tail) {
            assert((strip_comments(head) + seq!['\n'] + strip_comments(shorter)).push(
                tail.last(),
            ) == strip_comments(head) + seq!['\n'] + strip_comments(shorter).push(tail.last()));
        }
    }
}

/// Strips the comments from a sequence of characters.
fn strip(chars: &Vec<char>) -> (kept: Vec<char>)
    ensures
        kept@ == strip_comments(chars@),
{
    let mut kept: Vec<char> = Vec::new();
    let mut commenting = false;
    let mut i: usize = 0;
    while i < chars.len()
        invariant
            i <= chars.len(),
            kept@ == strip_comments(chars@.take(i as int)),
            commenting == in_comment(chars@.take(i as int)),
        decreases chars.len() - i,
    {
        let c = chars[i];
        proof {
            assert(chars@.take(i + 1).drop_last() == chars@.take(i as int));
            assert(chars@.take(i + 1).last() == c);
        }
        if c == '\n' {
            commenting = false;
        } else if c == '#' {
            commenting = true;
        }
        if !commenting {
            kept.push(c);
        }
        i = i + 1;
    }
    assert(chars@.take(chars.len() as int) == chars@);
    kept
}

/// Removes the comments from `input`: everything from a `#` to the end of
/// its line. The line breaks stay.
pub fn preprocess(input: &str) -> (output: String)
    ensures
        output@ == strip_comments(input@),
{
    let kept = strip(&chars_of(input));
    let output = text_of(&kept, 0, kept.len());
    assert(kept@.subrange(0, kept.len() as int) == kept@);
    output
}

/// The end of the longest run of word characters that begins at `from`.
fn word_end(classes: &CharClasses, s: &Vec<char>, from: usize) -> (to: usize)
    requires
        from <= s.len(),
    ensures
        from <= to <= s.len(),
        to == word_run_end(s@, from as int),
{
    let mut to: usize = from;
    while to < s.len() && classes.word(s[to])
        invariant
            from <= to <= s.len(),
            word_run_end(s@, to as int) == word_run_end(s@, from as int),
        decreases s.len() - to,
    {
        to = to + 1;
    }
    to
}

/// The end of the longest run of digits that begins at `from`.
fn digit_end(classes: &CharClasses, s: &Vec<char>, from: usize) -> (to: usize)
    requires
        from <= s.len(),
    ensures
        from <= to <= s.len(),
        to == digit_run_end(s@, from as int),
{
    let mut to: usize = from;
    while to < s.len() && classes.digit(s[to])
        invariant
            from <= to <= s.len(),
            digit_run_end(s@, to as int) == digit_run_end(s@, from as int),
        decreases s.len() - to,
    {
        to = to + 1;
    }
    to
}

/// The token that the name in `s` from `from` to `to` stands for: one of the
/// two keywords, or an identifier.
fn word_token(s: &Vec<char>, from: usize, to: usize) -> (token: Token)
    requires
        from < to <= s.len(),
        is_letter(s@[from as int]),
    ensures
        lexeme_token(s@.subrange(from as int, to as int)) == Some(
            Ok::<TokenModel, LexErrorModel>(token@),
        ),
{
    let ghost lexeme = s@.subrange(from as int, to as int);
    assert(lexeme[0] == s@[from as int]);
    if to - from == 3 && s[from] == 'd' && s[from + 1] == 'e' && s[from + 2] == 'f' {
        assert(lexeme =~= def_keyword());
        Token::Def
    } else if to - from == 6 && s[from] == 'e' && s[from + 1] == 'x' && s[from + 2] == 't' && s[from
        + 3] == 'e' && s[from + 4] == 'r' && s[from + 5] == 'n' {
        assert(lexeme =~= outside_keyword());
        assert(lexeme != def_keyword());
        Token::Extern
    } else {
        proof {
            if lexeme == def_keyword() {
                assert(lexeme[0] == 'd' && lexeme[1] == 'e' && lexeme[2] == 'f');
            }
            if lexeme == outside_keyword() {
                assert(lexeme[0] == 'e' && lexeme[1] == 'x' && lexeme[2] == 't' && lexeme[3] == 'e'
                    && lexeme[4] == 'r' && lexeme[5] == 'n');
            }
        }
        Token::Ident(text_of(s, from, to))
    }
}

/// Turns a list of tokens in source order into a stack whose top is the
/// first of them.
fn into_stack(tokens: Vec<Token>) -> (stack: Vec<Token>)
    ensures
        pending(stack@) == tokens@.map_values(|t: Token| t@),
{
    let ghost all = tokens@;
    let mut tokens = tokens;
    let mut stack: Vec<Token> = Vec::new();
    while tokens.len() > 0
        invariant
            tokens@.len() + stack@.len() == all.len(),
            tokens@ == all.take(tokens@.len() as int),
            forall|k: int| 0 <= k < stack@.len() ==> stack@[k] == all[all.len() - 1 - k],
        decreases tokens.len(),
    {
        let token = tokens.pop().unwrap();
        stack.push(token);
    }
    assert(pending(stack@) =~= all.map_values(|t: Token| t@));
    stack
}

/// Cuts `input` into tokens with the character classes given.
///
/// Comments are stripped first. Then, from left to right, each lexeme is as
/// long as its category allows, and the categories are tried in a fixed
/// order: name or keyword, number, `;`, `(`, `)`, `,`, and at last any other
/// visible character as an operator. White space separates and is dropped.
///
/// The tokens come back as a stack: the first token of the text is the last
/// element. A run of digits that is not a decimal number ends the scan with
/// `MalformedNumber`.
pub fn lex_with(classes: &CharClasses, input: &str) -> (r: Result<Vec<Token>, LexError>)
    ensures
        match tokens_of(input@) {
            Ok(tokens) => r matches Ok(stack) && pending(stack@) == tokens,
            Err(e) => r matches Err(x) && x@ == e,
        },
{
    let s = strip(&chars_of(input));
    let mut tokens: Vec<Token> = Vec::new();
    let mut i: usize = 0;
    while i < s.len()
        invariant
            i <= s.len(),
            s@ == strip_comments(input@),
            match scan(s@, i as int) {
                Ok(rest) => scan(s@, 0) == Ok::<Seq<TokenModel>, LexErrorModel>(
                    tokens@.map_values(|t: Token| t@) + rest,
                ),
                Err(e) => scan(s@, 0) == Err::<Seq<TokenModel>, LexErrorModel>(e),
            },
        decreases s.len() - i,
    {
        let c = s[i];
        let ghost before = tokens@.map_values(|t: Token| t@);
        proof {
            lemma_lexeme_end(s@, i as int);
            lemma_digit_run_end(s@, i + 1);
        }
        let ghost end = lexeme_end(s@, i as int);
        let ghost lexeme = s@.subrange(i as int, end);
        assert(lexeme[0] == c);
        let from = i;
        let token = if classes.letter(c) {
            i = word_end(classes, &s, from + 1);
            word_token(&s, from, i)
        } else if classes.digit(c) {
            let whole = digit_end(classes, &s, from + 1);
            i = if whole < s.len() && s[whole] == '.' {
                digit_end(classes, &s, whole + 1)
            } else {
                whole
            };
            let text = text_of(&s, from, i);
            match Decimal::from_text(text.as_str()) {
                Some(value) => Token::Number(value),
                None => {
                    return Err(LexError::MalformedNumber(text));
                },
            }
        } else {
            i = from + 1;
            if c == ';' {
                Token::Delimiter
            } else if c == '(' {
                Token::OpenParen
            } else if c == ')' {
                Token::CloseParen
            } else if c == ',' {
                Token::Comma
            } else if classes.solid(c) {
                Token::Operator(text_of(&s, from, i))
            } else {
                continue ;
            }
        };
        tokens.push(token);
        proof {
            let rest = scan(s@, end);
            if rest is Ok {
                assert(tokens@.map_values(|t: Token| t@) + rest->Ok_0 == before + (seq![token@]
                    + rest->Ok_0));
            }
        }
    }
    proof {
        assert(tokens@.map_values(|t: Token| t@) + Seq::<TokenModel>::empty()
            == tokens@.map_values(|t: Token| t@));
    }
    Ok(into_stack(tokens))
}

/// Cuts `input` into tokens, as [`lex_with`] does with the character classes
/// of [`CharClasses::new`].
///
/// If the patterns of the classes do not compile, the result is
/// `Unavailable`, whatever the input.
pub fn lex(input: &str) -> (r: Result<Vec<Token>, LexError>)
    ensures
        classes_compile() ==> (match tokens_of(input@) {
            Ok(tokens) => r matches Ok(stack) && pending(stack@) == tokens,
            Err(e) => r matches Err(x) && x@ == e,
        }),
        !classes_compile() ==> (r matches Err(x) && x@ is Unavailable),
{
    match CharClasses::new() {
        Some(classes) => lex_with(&classes, input),
        None => Err(LexError::Unavailable),
    }
}

} // verus!
