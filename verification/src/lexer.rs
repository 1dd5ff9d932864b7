//! The tokenizer: one left-to-right scan over the input characters, with one
//! character of lookahead, producing a token sequence that always ends in a
//! single end-of-file token.
//!
//! The scan is specified by [`spec_lex`], which pairs every token with the
//! span of input characters it consumed; [`lexer`] is proved to return
//! exactly the tokens (or exactly the error) that [`spec_lex`] names.

use vstd::prelude::*;
use crate::chars::{char_alphabetic, char_numeric, char_whitespace};
use crate::errors::{LexError, LexErrorModel};
use crate::selector::{Selector, SelectorType, selector_type_of};
use crate::text::{
    RunClass, all_ascii_digits, ascii_digit, dec_value, lemma_dec_value_grows,
    lemma_dec_value_step, lemma_run_len_le, run_len,
    scan_run, str_eq,
};

verus! {

/// One lexical unit of the input text.
#[derive(Clone, Debug)]
pub enum LexerToken {
    EndOfFile,
    Whitespace,
    Comment(String),
    Identifier(String),
    FalseKeyword,
    TrueKeyword,
    FloatKeyword,
    IntKeyword,
    BoolKeyword,
    SelectorKeyword,
    StringKeyword,
    FunctionKeyword,
    LiteralInt(i64),
    /// The literal's source text, kept verbatim; reading it as a
    /// floating-point number is left to the caller.
    LiteralFloat(String),
    LiteralSelector(Selector),
    LiteralString(String),
    OpenParenthesis,
    CloseParenthesis,
    Semicolon,
    Period,
    Plus,
    Dash,
    Star,
    Slash,
    Bang,
    BangEquals,
    Equals,
    DoubleEquals,
}

/// The mathematical shape of a `LexerToken`.
pub enum SpecToken {
    EndOfFile,
    Whitespace,
    Comment(Seq<char>),
    Identifier(Seq<char>),
    FalseKeyword,
    TrueKeyword,
    FloatKeyword,
    IntKeyword,
    BoolKeyword,
    SelectorKeyword,
    StringKeyword,
    FunctionKeyword,
    LiteralInt(int),
    LiteralFloat(Seq<char>),
    LiteralSelector(SelectorType, Seq<char>),
    LiteralString(Seq<char>),
    OpenParenthesis,
    CloseParenthesis,
    Semicolon,
    Period,
    Plus,
    Dash,
    Star,
    Slash,
    Bang,
    BangEquals,
    Equals,
    DoubleEquals,
}

impl View for LexerToken {
    type V = SpecToken;

    open spec fn view(&self) -> SpecToken {
        match self {
            LexerToken::EndOfFile => SpecToken::EndOfFile,
            LexerToken::Whitespace => SpecToken::Whitespace,
            LexerToken::Comment(t) => SpecToken::Comment(t@),
            LexerToken::Identifier(t) => SpecToken::Identifier(t@),
            LexerToken::FalseKeyword => SpecToken::FalseKeyword,
            LexerToken::TrueKeyword => SpecToken::TrueKeyword,
            LexerToken::FloatKeyword => SpecToken::FloatKeyword,
            LexerToken::IntKeyword => SpecToken::IntKeyword,
            LexerToken::BoolKeyword => SpecToken::BoolKeyword,
            LexerToken::SelectorKeyword => SpecToken::SelectorKeyword,
            LexerToken::StringKeyword => SpecToken::StringKeyword,
            LexerToken::FunctionKeyword => SpecToken::FunctionKeyword,
            LexerToken::LiteralInt(v) => SpecToken::LiteralInt(*v as int),
            LexerToken::LiteralFloat(t) => SpecToken::LiteralFloat(t@),
            LexerToken::LiteralSelector(sel) => SpecToken::LiteralSelector(
                sel.selector_type,
                sel.body@,
            ),
            LexerToken::LiteralString(t) => SpecToken::LiteralString(t@),
            LexerToken::OpenParenthesis => SpecToken::OpenParenthesis,
            LexerToken::CloseParenthesis => SpecToken::CloseParenthesis,
            LexerToken::Semicolon => SpecToken::Semicolon,
            LexerToken::Period => SpecToken::Period,
            LexerToken::Plus => SpecToken::Plus,
            LexerToken::Dash => SpecToken::Dash,
            LexerToken::Star => SpecToken::Star,
            LexerToken::Slash => SpecToken::Slash,
            LexerToken::Bang => SpecToken::Bang,
            LexerToken::BangEquals => SpecToken::BangEquals,
            LexerToken::Equals => SpecToken::Equals,
            LexerToken::DoubleEquals => SpecToken::DoubleEquals,
        }
    }
}

/// The token for one word: one of the nine fixed keywords, or an identifier.
pub open spec fn keyword_token(w: Seq<char>) -> SpecToken {
    if w == "true"@ {
        SpecToken::TrueKeyword
    } else if w == "false"@ {
        SpecToken::FalseKeyword
    } else if w == "float"@ {
        SpecToken::FloatKeyword
    } else if w == "int"@ {
        SpecToken::IntKeyword
    } else if w == "bool"@ {
        SpecToken::BoolKeyword
    } else if w == "selector"@ {
        SpecToken::SelectorKeyword
    } else if w == "string"@ {
        SpecToken::StringKeyword
    } else if w == "fn"@ {
        SpecToken::FunctionKeyword
    } else {
        SpecToken::Identifier(w)
    }
}

pub open spec fn contains_char(s: Seq<char>, c: char) -> bool {
    exists|i: int| 0 <= i < s.len() && s[i] == c
}

/// A captured numeric run is a well-formed integer literal when it is all
/// ASCII digits and its value fits a 64-bit signed integer.
pub open spec fn valid_int_text(t: Seq<char>) -> bool {
    t.len() > 0 && all_ascii_digits(t) && dec_value(t) <= i64::MAX
}

/// A captured numeric run is a well-formed float literal when it holds
/// exactly one `.`, every other character is an ASCII digit, and there is at
/// least one digit.
pub open spec fn valid_float_text(t: Seq<char>) -> bool {
    t.len() >= 2 && exists|i: int|
        0 <= i < t.len() && t[i] == '.' && (forall|j: int|
            0 <= j < t.len() && j != i ==> ascii_digit(t[j]))
}

/// The token starting at position `i` of `s`, with the position just past
/// it, or the error that aborts the scan there.
pub open spec fn spec_next_token(s: Seq<char>, i: int) -> Result<
    (SpecToken, int),
    LexErrorModel,
> {
    let c = s[i];
    if char_numeric(c) {
        let j = i + 1 + run_len(s, i + 1, RunClass::NumericOrDot);
        let t = s.subrange(i, j);
        if contains_char(t, '.') {
            if valid_float_text(t) {
                Ok((SpecToken::LiteralFloat(t), j))
            } else {
                Err(LexErrorModel::MalformedNumericLiteral(t))
            }
        } else {
            if valid_int_text(t) {
                Ok((SpecToken::LiteralInt(dec_value(t)), j))
            } else {
                Err(LexErrorModel::MalformedNumericLiteral(t))
            }
        }
    } else if char_alphabetic(c) {
        let j = i + 1 + run_len(s, i + 1, RunClass::WordContinue);
        Ok((keyword_token(s.subrange(i, j)), j))
    } else if char_whitespace(c) {
        Ok((SpecToken::Whitespace, i + 1 + run_len(s, i + 1, RunClass::Space)))
    } else if c == '(' {
        Ok((SpecToken::OpenParenthesis, i + 1))
    } else if c == ')' {
        Ok((SpecToken::CloseParenthesis, i + 1))
    } else if c == ';' {
        Ok((SpecToken::Semicolon, i + 1))
    } else if c == '+' {
        Ok((SpecToken::Plus, i + 1))
    } else if c == '-' {
        Ok((SpecToken::Dash, i + 1))
    } else if c == '*' {
        Ok((SpecToken::Star, i + 1))
    } else if c == '.' {
        Ok((SpecToken::Period, i + 1))
    } else if c == '/' {
        if i + 1 < s.len() && s[i + 1] == '/' {
            let j = i + 2 + run_len(s, i + 2, RunClass::NotNewline);
            Ok((SpecToken::Comment(s.subrange(i + 2, j)), j))
        } else {
            Ok((SpecToken::Slash, i + 1))
        }
    } else if c == '!' {
        if i + 1 < s.len() && s[i + 1] == '=' {
            Ok((SpecToken::BangEquals, i + 2))
        } else {
            Ok((SpecToken::Bang, i + 1))
        }
    } else if c == '=' {
        if i + 1 < s.len() && s[i + 1] == '=' {
            Ok((SpecToken::DoubleEquals, i + 2))
        } else {
            Ok((SpecToken::Equals, i + 1))
        }
    } else if c == '@' {
        if i + 1 >= s.len() {
            Err(LexErrorModel::MalformedSelector(None))
        } else {
            let tc = s[i + 1];
            if i + 2 < s.len() && s[i + 2] == '[' {
                let j = i + 3 + run_len(s, i + 3, RunClass::NotCloseBracket);
                if j < s.len() {
                    match selector_type_of(tc) {
                        Some(st) => Ok(
                            (SpecToken::LiteralSelector(st, s.subrange(i + 3, j)), j + 1),
                        ),
                        None => Err(LexErrorModel::MalformedSelector(Some(tc))),
                    }
                } else {
                    Err(LexErrorModel::UnterminatedLiteralGroup)
                }
            } else {
                match selector_type_of(tc) {
                    Some(st) => Ok((SpecToken::LiteralSelector(st, Seq::empty()), i + 2)),
                    None => Err(LexErrorModel::MalformedSelector(Some(tc))),
                }
            }
        }
    } else if c == '"' {
        let j = i + 1 + run_len(s, i + 1, RunClass::NotQuote);
        if j < s.len() {
            Ok((SpecToken::LiteralString(s.subrange(i + 1, j)), j + 1))
        } else {
            Err(LexErrorModel::UnterminatedLiteralGroup)
        }
    } else {
        Err(LexErrorModel::InvalidCharacter(c))
    }
}

/// The tokens from position `i` of `s` to its end, each paired with the span
/// of characters it consumed, or the first error of the scan.
pub open spec fn spec_lex_from(s: Seq<char>, i: int) -> Result<
    Seq<(SpecToken, Seq<char>)>,
    LexErrorModel,
>
    decreases s.len() - i,
{
    if i < 0 || i >= s.len() {
        Ok(seq![(SpecToken::EndOfFile, Seq::<char>::empty())])
    } else {
        match spec_next_token(s, i) {
            Err(e) => Err(e),
            Ok((t, j)) => {
                // the recursion runs on a clamped position so that it visibly
                // terminates; lemma_next_token_advances shows the clamp never
                // moves the position spec_next_token produced
                let j2 = if j <= i {
                    i + 1
                } else if j > s.len() {
                    s.len() as int
                } else {
                    j
                };
                match spec_lex_from(s, j2) {
                    Err(e) => Err(e),
                    Ok(rest) => Ok(seq![(t, s.subrange(i, j2))] + rest),
                }
            },
        }
    }
}

/// The whole tokenization of `s`.
pub open spec fn spec_lex(s: Seq<char>) -> Result<Seq<(SpecToken, Seq<char>)>, LexErrorModel> {
    spec_lex_from(s, 0)
}

pub open spec fn token_part(tp: Seq<(SpecToken, Seq<char>)>) -> Seq<SpecToken> {
    tp.map_values(|p: (SpecToken, Seq<char>)| p.0)
}

pub open spec fn toks_view(v: Seq<LexerToken>) -> Seq<SpecToken> {
    v.map_values(|t: LexerToken| t@)
}

/// `v` is exactly the token sequence of a successful scan of `s`.
pub open spec fn lexes_to(s: Seq<char>, v: Seq<SpecToken>) -> bool {
    match spec_lex(s) {
        Ok(tp) => v == token_part(tp),
        Err(_) => false,
    }
}

/// Scanning `s` fails, with exactly the error `e`.
pub open spec fn lex_fails_with(s: Seq<char>, e: LexErrorModel) -> bool {
    match spec_lex(s) {
        Ok(_) => false,
        Err(e2) => e == e2,
    }
}

/// Every token consumes at least one character and never reads past the end
/// of the input.
pub proof fn lemma_next_token_advances(s: Seq<char>, i: int)
    requires
        0 <= i < s.len(),
    ensures
        match spec_next_token(s, i) {
            Ok((t, j)) => i < j <= s.len(),
            Err(_) => true,
        },
{
    lemma_run_len_le(s, i + 1, RunClass::NumericOrDot);
    lemma_run_len_le(s, i + 1, RunClass::WordContinue);
    lemma_run_len_le(s, i + 1, RunClass::Space);
    lemma_run_len_le(s, i + 1, RunClass::NotQuote);
    if i + 1 < s.len() {
        lemma_run_len_le(s, i + 2, RunClass::NotNewline);
    }
    if i + 2 < s.len() {
        lemma_run_len_le(s, i + 3, RunClass::NotCloseBracket);
    }
}

/// Unrolls `spec_lex_from` one token, with the clamp resolved.
pub proof fn lemma_lex_from_unfold(s: Seq<char>, i: int)
    requires
        0 <= i < s.len(),
    ensures
        match spec_next_token(s, i) {
            Ok((t, j)) => spec_lex_from(s, i) == (match spec_lex_from(s, j) {
                Err(e) => Err(e),
                Ok(rest) => Ok(seq![(t, s.subrange(i, j))] + rest),
            }),
            Err(e) => spec_lex_from(s, i) == Err::<Seq<(SpecToken, Seq<char>)>, _>(e),
        },
{
    lemma_next_token_advances(s, i);
}

/// The tokenizer's loop invariant: the tokens already produced, continued by
/// a scan from position `i`, give the scan of the whole input.
pub open spec fn lex_inv(s: Seq<char>, done: Seq<SpecToken>, i: int) -> bool {
    match spec_lex_from(s, i) {
        Ok(rest) => match spec_lex(s) {
            Ok(tp) => token_part(tp) == done + token_part(rest),
            Err(_) => false,
        },
        Err(e) => match spec_lex(s) {
            Ok(_) => false,
            Err(e2) => e2 == e,
        },
    }
}

proof fn lemma_lex_inv_step(s: Seq<char>, done: Seq<SpecToken>, i: int, t: SpecToken, j: int)
    requires
        lex_inv(s, done, i),
        0 <= i < s.len(),
        spec_next_token(s, i) == Ok::<(SpecToken, int), LexErrorModel>((t, j)),
        i < j <= s.len(),
    ensures
        lex_inv(s, done.push(t), j),
{
    lemma_lex_from_unfold(s, i);
    match spec_lex_from(s, j) {
        Ok(rest) => {
            let full = seq![(t, s.subrange(i, j))] + rest;
            assert(token_part(full) =~= seq![t] + token_part(rest));
            assert(done + token_part(full) =~= done.push(t) + token_part(rest));
        },
        Err(_) => {},
    }
}

proof fn lemma_lex_inv_err(s: Seq<char>, done: Seq<SpecToken>, i: int, e: LexErrorModel)
    requires
        lex_inv(s, done, i),
        0 <= i < s.len(),
        spec_next_token(s, i) == Err::<(SpecToken, int), LexErrorModel>(e),
    ensures
        lex_fails_with(s, e),
{
    lemma_lex_from_unfold(s, i);
}

proof fn lemma_toks_view_push(v: Seq<LexerToken>, t: LexerToken)
    ensures
        toks_view(v.push(t)) == toks_view(v).push(t@),
{
    assert(toks_view(v.push(t)) =~= toks_view(v).push(t@));
}

/// Characters on which the scan can plainly never fail: non-numeric letters,
/// non-numeric whitespace, and the fixed punctuation characters. Numeric
/// runs, selectors and string literals are left out, since those can still
/// fail on malformed or unterminated text.
pub open spec fn plain_char(c: char) -> bool {
    !char_numeric(c) && (char_alphabetic(c) || char_whitespace(c) || c == '(' || c == ')' || c
        == ';' || c == '+' || c == '-' || c == '*' || c == '.' || c == '/' || c == '!' || c
        == '=')
}

proof fn lemma_eof_from(s: Seq<char>, i: int)
    requires
        0 <= i <= s.len(),
    ensures
        match spec_lex_from(s, i) {
            Ok(tp) => tp.len() >= 1 && tp.last().0 == SpecToken::EndOfFile && (forall|m: int|
                0 <= m < tp.len() - 1 ==> tp[m].0 != SpecToken::EndOfFile),
            Err(_) => true,
        },
    decreases s.len() - i,
{
    if i < s.len() {
        lemma_lex_from_unfold(s, i);
        lemma_next_token_advances(s, i);
        match spec_next_token(s, i) {
            Ok((t, j)) => {
                lemma_eof_from(s, j);
                assert(t != SpecToken::EndOfFile);
                match spec_lex_from(s, j) {
                    Ok(rest) => {
                        let full = seq![(t, s.subrange(i, j))] + rest;
                        assert(full.last() == rest.last());
                        assert forall|m: int| 0 <= m < full.len() - 1 implies full[m].0
                            != SpecToken::EndOfFile by {
                            if m > 0 {
                                assert(full[m] == rest[m - 1]);
                            }
                        }
                    },
                    Err(_) => {},
                }
            },
            Err(_) => {},
        }
    }
}

/// Every successful tokenization ends in an end-of-file token, which occurs
/// exactly once, and only at the end.
pub proof fn lemma_end_of_file_once(s: Seq<char>)
    ensures
        match spec_lex(s) {
            Ok(tp) => tp.len() >= 1 && tp.last().0 == SpecToken::EndOfFile && (forall|m: int|
                0 <= m < tp.len() - 1 ==> tp[m].0 != SpecToken::EndOfFile),
            Err(_) => true,
        },
{
    lemma_eof_from(s, 0);
}

proof fn lemma_plain_from(s: Seq<char>, i: int)
    requires
        0 <= i <= s.len(),
        forall|k: int| 0 <= k < s.len() ==> plain_char(s[k]),
    ensures
        spec_lex_from(s, i) matches Ok(_),
    decreases s.len() - i,
{
    if i < s.len() {
        lemma_lex_from_unfold(s, i);
        lemma_next_token_advances(s, i);
        assert(plain_char(s[i]));
        match spec_next_token(s, i) {
            Ok((t, j)) => {
                lemma_plain_from(s, j);
            },
            Err(_) => {
                assert(false);
            },
        }
    }
}

/// Tokenization never fails on an input made only of plainly valid
/// characters: letters, whitespace and the fixed punctuation. (Numeric runs
/// are not included: one like `1.2.3` is made of valid characters and still
/// fails as a malformed literal.)
pub proof fn lemma_plain_input_lexes(s: Seq<char>)
    ensures
        (forall|k: int| 0 <= k < s.len() ==> plain_char(s[k])) ==> (spec_lex(s) matches Ok(_)),
{
    if forall|k: int| 0 <= k < s.len() ==> plain_char(s[k]) {
        lemma_plain_from(s, 0);
    }
}

/// The concatenation of the spans consumed by a token sequence.
pub open spec fn spans_concat(tp: Seq<(SpecToken, Seq<char>)>) -> Seq<char>
    decreases tp.len(),
{
    if tp.len() == 0 {
        Seq::empty()
    } else {
        tp[0].1 + spans_concat(tp.drop_first())
    }
}

/// Whitespace and comment tokens: real tokens to the tokenizer, but
/// structurally irrelevant to the grammar.
pub open spec fn is_trivia(t: SpecToken) -> bool {
    t == SpecToken::Whitespace || (t matches SpecToken::Comment(_))
}

/// The token sequence with whitespace and comment tokens dropped.
pub open spec fn drop_trivia(tp: Seq<(SpecToken, Seq<char>)>) -> Seq<(SpecToken, Seq<char>)>
    decreases tp.len(),
{
    if tp.len() == 0 {
        tp
    } else if is_trivia(tp[0].0) {
        drop_trivia(tp.drop_first())
    } else {
        seq![tp[0]] + drop_trivia(tp.drop_first())
    }
}

/// The input with the characters of whitespace and comment tokens erased.
pub open spec fn trivia_erased(tp: Seq<(SpecToken, Seq<char>)>) -> Seq<char>
    decreases tp.len(),
{
    if tp.len() == 0 {
        Seq::empty()
    } else if is_trivia(tp[0].0) {
        trivia_erased(tp.drop_first())
    } else {
        tp[0].1 + trivia_erased(tp.drop_first())
    }
}

proof fn lemma_spans_from(s: Seq<char>, i: int)
    requires
        0 <= i <= s.len(),
    ensures
        match spec_lex_from(s, i) {
            Ok(tp) => spans_concat(tp) == s.subrange(i, s.len() as int),
            Err(_) => true,
        },
    decreases s.len() - i,
{
    if i >= s.len() {
        let tp = seq![(SpecToken::EndOfFile, Seq::<char>::empty())];
        assert(tp.drop_first() =~= Seq::<(SpecToken, Seq<char>)>::empty());
        assert(spans_concat(tp.drop_first()) == Seq::<char>::empty());
        assert(spans_concat(tp) =~= s.subrange(i, s.len() as int));
    } else {
        lemma_lex_from_unfold(s, i);
        lemma_next_token_advances(s, i);
        match spec_next_token(s, i) {
            Ok((t, j)) => {
                lemma_spans_from(s, j);
                match spec_lex_from(s, j) {
                    Ok(rest) => {
                        let full = seq![(t, s.subrange(i, j))] + rest;
                        assert(full.drop_first() =~= rest);
                        assert(spans_concat(full) =~= s.subrange(i, s.len() as int));
                    },
                    Err(_) => {},
                }
            },
            Err(_) => {},
        }
    }
}

proof fn lemma_drop_trivia_spans(tp: Seq<(SpecToken, Seq<char>)>)
    ensures
        spans_concat(drop_trivia(tp)) == trivia_erased(tp),
    decreases tp.len(),
{
    if tp.len() > 0 {
        lemma_drop_trivia_spans(tp.drop_first());
        if !is_trivia(tp[0].0) {
            let full = seq![tp[0]] + drop_trivia(tp.drop_first());
            assert(full.drop_first() =~= drop_trivia(tp.drop_first()));
            assert(spans_concat(full) =~= tp[0].1 + spans_concat(drop_trivia(tp.drop_first())));
        }
    }
}

/// Structural fidelity of the scan: the spans consumed by the tokens of a
/// successful tokenization concatenate back to the whole input, and the
/// spans of the tokens left after dropping whitespace and comments
/// concatenate to the input with exactly the whitespace and comment spans
/// erased.
pub proof fn lemma_token_spans_reproduce_input(s: Seq<char>)
    ensures
        match spec_lex(s) {
            Ok(tp) => spans_concat(tp) == s && spans_concat(drop_trivia(tp)) == trivia_erased(
                tp,
            ),
            Err(_) => true,
        },
{
    lemma_spans_from(s, 0);
    match spec_lex(s) {
        Ok(tp) => {
            assert(s.subrange(0, s.len() as int) =~= s);
            lemma_drop_trivia_spans(tp);
        },
        Err(_) => {},
    }
}

/// Whether the captured run holds a `.` and is therefore a float literal.
fn contains_dot(t: &str) -> (r: bool)
    ensures
        r == contains_char(t@, '.'),
{
    let n = t.unicode_len();
    let mut k: usize = 0;
    while k < n
        invariant
            n == t@.len(),
            0 <= k <= n,
            forall|m: int| 0 <= m < k ==> t@[m] != '.',
        decreases n - k,
    {
        if t.get_char(k) == '.' {
            assert(contains_char(t@, '.')) by {
                assert(t@[k as int] == '.');
            }
            return true;
        }
        k = k + 1;
    }
    false
}

/// Decides `valid_float_text` for a captured numeric run.
fn check_float_text(t: &str) -> (r: bool)
    ensures
        r == valid_float_text(t@),
{
    let n = t.unicode_len();
    if n < 2 {
        return false;
    }
    let mut k: usize = 0;
    let mut dot_found = false;
    let mut dot_pos: usize = 0;
    loop
        invariant
            n == t@.len(),
            0 <= k <= n,
            2 <= n,
            dot_found ==> dot_pos < k && t@[dot_pos as int] == '.',
            forall|m: int| 0 <= m < k && (!dot_found || m != dot_pos) ==> ascii_digit(t@[m]),
        ensures
            k == n,
            dot_found ==> dot_pos < k && t@[dot_pos as int] == '.',
            forall|m: int| 0 <= m < k && (!dot_found || m != dot_pos) ==> ascii_digit(t@[m]),
        decreases n - k,
    {
        if k == n {
            break;
        }
        let c = t.get_char(k);
        if c == '.' {
            if dot_found {
                // a second dot: whichever position a candidate dot takes,
                // the other dot is a non-digit elsewhere
                proof {
                    assert forall|i2: int|
                        0 <= i2 < t@.len() && t@[i2] == '.' implies !(forall|j: int|
                        0 <= j < t@.len() && j != i2 ==> ascii_digit(t@[j])) by {
                        if i2 == dot_pos {
                            assert(0 <= k < t@.len() && k != i2 && !ascii_digit(t@[k as int]));
                        } else {
                            assert(0 <= dot_pos < t@.len() && dot_pos != i2 && !ascii_digit(
                                t@[dot_pos as int],
                            ));
                        }
                    }
                }
                return false;
            }
            dot_found = true;
            dot_pos = k;
        } else {
            let cv = c as u32;
            if cv < 48 || cv > 57 {
                // a character that is neither a digit nor the dot
                proof {
                    assert forall|i2: int|
                        0 <= i2 < t@.len() && t@[i2] == '.' implies !(forall|j: int|
                        0 <= j < t@.len() && j != i2 ==> ascii_digit(t@[j])) by {
                        assert(0 <= k < t@.len() && k != i2 && !ascii_digit(t@[k as int]));
                    }
                }
                return false;
            }
        }
        k = k + 1;
    }
    if dot_found {
        assert(valid_float_text(t@)) by {
            assert(t@[dot_pos as int] == '.' && (forall|j: int|
                0 <= j < t@.len() && j != dot_pos ==> ascii_digit(t@[j])));
        }
        true
    } else {
        assert(!valid_float_text(t@)) by {
            assert forall|i2: int| 0 <= i2 < t@.len() implies t@[i2] != '.' by {
                assert(ascii_digit(t@[i2]));
            }
        }
        false
    }
}

/// Reads a run of ASCII digits as a 64-bit signed integer; `None` on any
/// non-digit character or on overflow.
fn parse_int_literal(t: &str) -> (r: Option<i64>)
    ensures
        match r {
            Some(v) => valid_int_text(t@) && v as int == dec_value(t@),
            None => !valid_int_text(t@),
        },
{
    let n = t.unicode_len();
    if n == 0 {
        return None;
    }
    let mut k: usize = 0;
    let mut v: i64 = 0;
    loop
        invariant
            n == t@.len(),
            0 <= k <= n,
            0 < n,
            all_ascii_digits(t@.take(k as int)),
            0 <= v,
            v as int == dec_value(t@.take(k as int)),
        ensures
            k == n,
            all_ascii_digits(t@),
            0 <= v,
            v as int == dec_value(t@),
        decreases n - k,
    {
        if k == n {
            proof {
                assert(t@.take(n as int) =~= t@);
            }
            break;
        }
        let c = t.get_char(k);
        let cv = c as u32;
        if cv < 48 || cv > 57 {
            proof {
                assert(!ascii_digit(t@[k as int]));
            }
            return None;
        }
        let d = (cv - 48) as i64;
        proof {
            lemma_dec_value_step(t@, k as int);
        }
        if v > 922_337_203_685_477_580 || (v == 922_337_203_685_477_580 && d > 7) {
            // the value of the digits read so far already exceeds i64::MAX
            proof {
                assert(t@.take(k + 1).len() == k + 1);
                assert(dec_value(t@.take(k + 1)) > i64::MAX);
                if all_ascii_digits(t@) {
                    lemma_dec_value_grows(t@, k + 1, i64::MAX as int);
                }
            }
            return None;
        }
        v = v * 10 + d;
        k = k + 1;
    }
    Some(v)
}

/// The token for one captured word: a fixed keyword, or an identifier.
fn lex_keyword(word: String) -> (t: LexerToken)
    ensures
        t@ == keyword_token(word@),
{
    if str_eq(word.as_str(), "true") {
        LexerToken::TrueKeyword
    } else if str_eq(word.as_str(), "false") {
        LexerToken::FalseKeyword
    } else if str_eq(word.as_str(), "float") {
        LexerToken::FloatKeyword
    } else if str_eq(word.as_str(), "int") {
        LexerToken::IntKeyword
    } else if str_eq(word.as_str(), "bool") {
        LexerToken::BoolKeyword
    } else if str_eq(word.as_str(), "selector") {
        LexerToken::SelectorKeyword
    } else if str_eq(word.as_str(), "string") {
        LexerToken::StringKeyword
    } else if str_eq(word.as_str(), "fn") {
        LexerToken::FunctionKeyword
    } else {
        LexerToken::Identifier(word)
    }
}

/// Tokenizes the whole input: returns exactly the tokens of [`spec_lex`],
/// or exactly its error.
pub fn lexer(input: String) -> (r: Result<Vec<LexerToken>, LexError>)
    ensures
        match r {
            Ok(v) => lexes_to(input@, toks_view(v@)),
            Err(e) => lex_fails_with(input@, e@),
        },
{
    let s = input.as_str();
    let n = s.unicode_len();
    let mut tokens: Vec<LexerToken> = Vec::new();
    let mut i: usize = 0;
    proof {
        match spec_lex_from(s@, 0) {
            Ok(rest) => {
                assert(Seq::<SpecToken>::empty() + token_part(rest) =~= token_part(rest));
            },
            Err(_) => {},
        }
        assert(toks_view(tokens@) =~= Seq::<SpecToken>::empty());
    }
    loop
        invariant
            s@ == input@,
            n == s@.len(),
            0 <= i <= n,
            lex_inv(s@, toks_view(tokens@), i as int),
        ensures
            i == n,
            lex_inv(s@, toks_view(tokens@), i as int),
        decreases n - i,
    {
        if i == n {
            break;
        }
        let c = s.get_char(i);
        let ghost done = toks_view(tokens@);
        if c.is_numeric() {
            let j = scan_run(s, n, i + 1, RunClass::NumericOrDot);
            let num = s.substring_char(i, j);
            let ghost tspan = s@.subrange(i as int, j as int);
            if contains_dot(num) {
                if check_float_text(num) {
                    let tok = LexerToken::LiteralFloat(num.to_owned());
                    proof {
                        lemma_lex_inv_step(
                            s@,
                            done,
                            i as int,
                            SpecToken::LiteralFloat(tspan),
                            j as int,
                        );
                        lemma_toks_view_push(tokens@, tok);
                    }
                    tokens.push(tok);
                    i = j;
                } else {
                    let e = LexError::MalformedNumericLiteral(num.to_owned());
                    proof {
                        lemma_lex_inv_err(s@, done, i as int, e@);
                    }
                    return Err(e);
                }
            } else {
                match parse_int_literal(num) {
                    Some(v) => {
                        let tok = LexerToken::LiteralInt(v);
                        proof {
                            lemma_lex_inv_step(
                                s@,
                                done,
                                i as int,
                                SpecToken::LiteralInt(dec_value(tspan)),
                                j as int,
                            );
                            lemma_toks_view_push(tokens@, tok);
                        }
                        tokens.push(tok);
                        i = j;
                    },
                    None => {
                        let e = LexError::MalformedNumericLiteral(num.to_owned());
                        proof {
                            lemma_lex_inv_err(s@, done, i as int, e@);
                        }
                        return Err(e);
                    },
                }
            }
        } else if c.is_alphabetic() {
            let j = scan_run(s, n, i + 1, RunClass::WordContinue);
            let word = s.substring_char(i, j);
            let tok = lex_keyword(word.to_owned());
            proof {
                lemma_lex_inv_step(
                    s@,
                    done,
                    i as int,
                    keyword_token(s@.subrange(i as int, j as int)),
                    j as int,
                );
                lemma_toks_view_push(tokens@, tok);
            }
            tokens.push(tok);
            i = j;
        } else if c.is_whitespace() {
            let j = scan_run(s, n, i + 1, RunClass::Space);
            let tok = LexerToken::Whitespace;
            proof {
                lemma_lex_inv_step(s@, done, i as int, SpecToken::Whitespace, j as int);
                lemma_toks_view_push(tokens@, tok);
            }
            tokens.push(tok);
            i = j;
        } else if c == '(' || c == ')' || c == ';' || c == '+' || c == '-' || c == '*' || c
            == '.' {
            let tok = if c == '(' {
                LexerToken::OpenParenthesis
            } else if c == ')' {
                LexerToken::CloseParenthesis
            } else if c == ';' {
                LexerToken::Semicolon
            } else if c == '+' {
                LexerToken::Plus
            } else if c == '-' {
                LexerToken::Dash
            } else if c == '*' {
                LexerToken::Star
            } else {
                LexerToken::Period
            };
            proof {
                lemma_lex_inv_step(s@, done, i as int, tok@, i + 1);
                lemma_toks_view_push(tokens@, tok);
            }
            tokens.push(tok);
            i = i + 1;
        } else if c == '/' {
            if i + 1 < n && s.get_char(i + 1) == '/' {
                let j = scan_run(s, n, i + 2, RunClass::NotNewline);
                let body = s.substring_char(i + 2, j);
                let tok = LexerToken::Comment(body.to_owned());
                proof {
                    lemma_lex_inv_step(s@, done, i as int, tok@, j as int);
                    lemma_toks_view_push(tokens@, tok);
                }
                tokens.push(tok);
                i = j;
            } else {
                let tok = LexerToken::Slash;
                proof {
                    lemma_lex_inv_step(s@, done, i as int, SpecToken::Slash, i + 1);
                    lemma_toks_view_push(tokens@, tok);
                }
                tokens.push(tok);
                i = i + 1;
            }
        } else if c == '!' {
            if i + 1 < n && s.get_char(i + 1) == '=' {
                let tok = LexerToken::BangEquals;
                proof {
                    lemma_lex_inv_step(s@, done, i as int, SpecToken::BangEquals, i + 2);
                    lemma_toks_view_push(tokens@, tok);
                }
                tokens.push(tok);
                i = i + 2;
            } else {
                let tok = LexerToken::Bang;
                proof {
                    lemma_lex_inv_step(s@, done, i as int, SpecToken::Bang, i + 1);
                    lemma_toks_view_push(tokens@, tok);
                }
                tokens.push(tok);
                i = i + 1;
            }
        } else if c == '=' {
            if i + 1 < n && s.get_char(i + 1) == '=' {
                let tok = LexerToken::DoubleEquals;
                proof {
                    lemma_lex_inv_step(s@, done, i as int, SpecToken::DoubleEquals, i + 2);
                    lemma_toks_view_push(tokens@, tok);
                }
                tokens.push(tok);
                i = i + 2;
            } else {
                let tok = LexerToken::Equals;
                proof {
                    lemma_lex_inv_step(s@, done, i as int, SpecToken::Equals, i + 1);
                    lemma_toks_view_push(tokens@, tok);
                }
                tokens.push(tok);
                i = i + 1;
            }
        } else if c == '@' {
            if i + 1 >= n {
                let e = LexError::MalformedSelector(None);
                proof {
                    lemma_lex_inv_err(s@, done, i as int, e@);
                }
                return Err(e);
            }
            let tc = s.get_char(i + 1);
            if i + 2 < n && s.get_char(i + 2) == '[' {
                let j = scan_run(s, n, i + 3, RunClass::NotCloseBracket);
                if j < n {
                    let body = s.substring_char(i + 3, j);
                    match Selector::new(tc, body.to_owned()) {
                        Ok(sel) => {
                            let tok = LexerToken::LiteralSelector(sel);
                            proof {
                                lemma_lex_inv_step(s@, done, i as int, tok@, j + 1);
                                lemma_toks_view_push(tokens@, tok);
                            }
                            tokens.push(tok);
                            i = j + 1;
                        },
                        Err(e) => {
                            proof {
                                lemma_lex_inv_err(s@, done, i as int, e@);
                            }
                            return Err(e);
                        },
                    }
                } else {
                    let e = LexError::UnterminatedLiteralGroup;
                    proof {
                        lemma_lex_inv_err(s@, done, i as int, e@);
                    }
                    return Err(e);
                }
            } else {
                match Selector::new(tc, String::new()) {
                    Ok(sel) => {
                        let tok = LexerToken::LiteralSelector(sel);
                        proof {
                            lemma_lex_inv_step(s@, done, i as int, tok@, i + 2);
                            lemma_toks_view_push(tokens@, tok);
                        }
                        tokens.push(tok);
                        i = i + 2;
                    },
                    Err(e) => {
                        proof {
                            lemma_lex_inv_err(s@, done, i as int, e@);
                        }
                        return Err(e);
                    },
                }
            }
        } else if c == '"' {
            let j = scan_run(s, n, i + 1, RunClass::NotQuote);
            if j < n {
                let body = s.substring_char(i + 1, j);
                let tok = LexerToken::LiteralString(body.to_owned());
                proof {
                    lemma_lex_inv_step(s@, done, i as int, tok@, j + 1);
                    lemma_toks_view_push(tokens@, tok);
                }
                tokens.push(tok);
                i = j + 1;
            } else {
                let e = LexError::UnterminatedLiteralGroup;
                proof {
                    lemma_lex_inv_err(s@, done, i as int, e@);
                }
                return Err(e);
            }
        } else {
            let e = LexError::InvalidCharacter(c);
            proof {
                lemma_lex_inv_err(s@, done, i as int, e@);
            }
            return Err(e);
        }
    }
    let ghost done = toks_view(tokens@);
    proof {
        lemma_toks_view_push(tokens@, LexerToken::EndOfFile);
        match spec_lex(s@) {
            Ok(tp) => {
                let rest = seq![(SpecToken::EndOfFile, Seq::<char>::empty())];
                assert(token_part(rest) =~= seq![SpecToken::EndOfFile]);
                assert(done + seq![SpecToken::EndOfFile] =~= done.push(SpecToken::EndOfFile));
            },
            Err(_) => {},
        }
    }
    tokens.push(LexerToken::EndOfFile);
    Ok(tokens)
}

} // verus!
