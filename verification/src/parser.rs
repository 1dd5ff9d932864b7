//! The parser: recursive descent over the token sequence, with whitespace
//! and comment tokens filtered out first, two precedence tiers (additive
//! below multiplicative), left-associative folding of binary operators, and
//! parenthesized or integer-literal primaries.
//!
//! The grammar is specified by the `spec_parse_*` functions; [`parser`] is
//! proved to return exactly the tree (or exactly the error) they name.

use vstd::prelude::*;
use crate::lexer::{LexerToken, SpecToken, is_trivia, toks_view};
use crate::selector::Selector;

verus! {

/// A node of the abstract syntax tree. Every non-leaf node exclusively owns
/// its children. The unary variant is representable but never produced by
/// the current grammar; it is kept for the operators the token set already
/// carries.
pub enum Expression {
    LiteralExpression(LexerToken),
    BinaryExpression(Box<Expression>, LexerToken, Box<Expression>),
    UnaryExpression(LexerToken, Box<Expression>),
    ParenthesesExpression(LexerToken, Box<Expression>, LexerToken),
}

/// The mathematical shape of an `Expression`.
pub enum ExpressionModel {
    Literal(SpecToken),
    Binary(Box<ExpressionModel>, SpecToken, Box<ExpressionModel>),
    Unary(SpecToken, Box<ExpressionModel>),
    Parentheses(SpecToken, Box<ExpressionModel>, SpecToken),
}

/// The mathematical shape of one expression node and its children.
pub open spec fn expr_view(e: Expression) -> ExpressionModel
    decreases e,
{
    match e {
        Expression::LiteralExpression(t) => ExpressionModel::Literal(t@),
        Expression::BinaryExpression(l, op, r) => ExpressionModel::Binary(
            Box::new(expr_view(*l)),
            op@,
            Box::new(expr_view(*r)),
        ),
        Expression::UnaryExpression(op, inner) => ExpressionModel::Unary(
            op@,
            Box::new(expr_view(*inner)),
        ),
        Expression::ParenthesesExpression(l, inner, r) => ExpressionModel::Parentheses(
            l@,
            Box::new(expr_view(*inner)),
            r@,
        ),
    }
}

impl View for Expression {
    type V = ExpressionModel;

    open spec fn view(&self) -> ExpressionModel {
        expr_view(*self)
    }
}

/// The parse root: one top-level expression and the terminating end-of-file
/// token.
pub struct SyntaxTree {
    pub inner_expression: Box<Expression>,
    pub end_of_file_token: LexerToken,
}

/// The mathematical shape of a `SyntaxTree`.
pub struct SyntaxTreeModel {
    pub inner_expression: ExpressionModel,
    pub end_of_file_token: SpecToken,
}

impl View for SyntaxTree {
    type V = SyntaxTreeModel;

    open spec fn view(&self) -> SyntaxTreeModel {
        SyntaxTreeModel {
            inner_expression: self.inner_expression@,
            end_of_file_token: self.end_of_file_token@,
        }
    }
}

/// The kind of a token, without its payload: what the parser's expectation
/// checks compare.
#[derive(Clone, Copy, Debug, PartialEq, Eq, Structural)]
pub enum TokenKind {
    EndOfFile,
    Whitespace,
    Comment,
    Identifier,
    FalseKeyword,
    TrueKeyword,
    FloatKeyword,
    IntKeyword,
    BoolKeyword,
    SelectorKeyword,
    StringKeyword,
    FunctionKeyword,
    LiteralInt,
    LiteralFloat,
    LiteralSelector,
    LiteralString,
    OpenParenthesis,
    CloseParenthesis,
    Semicolon,
    Period,
    Plus,
    Dash,
    Star,
    Slash,
    Bang,
    BangEquals,
    Equals,
    DoubleEquals,
}

pub open spec fn kind_of(t: SpecToken) -> TokenKind {
    match t {
        SpecToken::EndOfFile => TokenKind::EndOfFile,
        SpecToken::Whitespace => TokenKind::Whitespace,
        SpecToken::Comment(_) => TokenKind::Comment,
        SpecToken::Identifier(_) => TokenKind::Identifier,
        SpecToken::FalseKeyword => TokenKind::FalseKeyword,
        SpecToken::TrueKeyword => TokenKind::TrueKeyword,
        SpecToken::FloatKeyword => TokenKind::FloatKeyword,
        SpecToken::IntKeyword => TokenKind::IntKeyword,
        SpecToken::BoolKeyword => TokenKind::BoolKeyword,
        SpecToken::SelectorKeyword => TokenKind::SelectorKeyword,
        SpecToken::StringKeyword => TokenKind::StringKeyword,
        SpecToken::FunctionKeyword => TokenKind::FunctionKeyword,
        SpecToken::LiteralInt(_) => TokenKind::LiteralInt,
        SpecToken::LiteralFloat(_) => TokenKind::LiteralFloat,
        SpecToken::LiteralSelector(_, _) => TokenKind::LiteralSelector,
        SpecToken::LiteralString(_) => TokenKind::LiteralString,
        SpecToken::OpenParenthesis => TokenKind::OpenParenthesis,
        SpecToken::CloseParenthesis => TokenKind::CloseParenthesis,
        SpecToken::Semicolon => TokenKind::Semicolon,
        SpecToken::Period => TokenKind::Period,
        SpecToken::Plus => TokenKind::Plus,
        SpecToken::Dash => TokenKind::Dash,
        SpecToken::Star => TokenKind::Star,
        SpecToken::Slash => TokenKind::Slash,
        SpecToken::Bang => TokenKind::Bang,
        SpecToken::BangEquals => TokenKind::BangEquals,
        SpecToken::Equals => TokenKind::Equals,
        SpecToken::DoubleEquals => TokenKind::DoubleEquals,
    }
}

/// A parse failure.
#[derive(Debug, Clone)]
pub enum ParseError {
    /// The token found, and the kind of token the grammar expected there.
    UnexpectedToken(LexerToken, TokenKind),
    /// A read past the final end-of-file token: with a tokenizer-produced
    /// sequence this marks a protocol violation by the caller, and it is
    /// reported as an error rather than aborting the process.
    UnexpectedEndOfInput,
}

/// The mathematical shape of a `ParseError`.
pub enum ParseErrorModel {
    UnexpectedToken(SpecToken, TokenKind),
    UnexpectedEndOfInput,
}

impl View for ParseError {
    type V = ParseErrorModel;

    open spec fn view(&self) -> ParseErrorModel {
        match self {
            ParseError::UnexpectedToken(t, k) => ParseErrorModel::UnexpectedToken(t@, *k),
            ParseError::UnexpectedEndOfInput => ParseErrorModel::UnexpectedEndOfInput,
        }
    }
}

/// Consumes the token at `i` when its kind is `k`: the payload is never
/// compared, only the kind.
pub open spec fn spec_expect(toks: Seq<SpecToken>, i: int, k: TokenKind) -> Result<
    (SpecToken, int),
    ParseErrorModel,
> {
    if i < 0 || i >= toks.len() {
        Err(ParseErrorModel::UnexpectedEndOfInput)
    } else if kind_of(toks[i]) == k {
        Ok((toks[i], i + 1))
    } else {
        Err(ParseErrorModel::UnexpectedToken(toks[i], k))
    }
}

/// primary := '(' expression ')' | literal-int
pub open spec fn spec_parse_primary(toks: Seq<SpecToken>, i: int) -> Result<
    (ExpressionModel, int),
    ParseErrorModel,
>
    decreases toks.len() - i, 0int,
{
    if i < 0 || i >= toks.len() {
        Err(ParseErrorModel::UnexpectedEndOfInput)
    } else if toks[i] == SpecToken::OpenParenthesis {
        let open = toks[i];
        match spec_parse_term(toks, i + 1) {
            Err(e) => Err(e),
            Ok((inner, j)) => match spec_expect(toks, j, TokenKind::CloseParenthesis) {
                Err(e) => Err(e),
                Ok((close, j2)) => Ok(
                    (ExpressionModel::Parentheses(open, Box::new(inner), close), j2),
                ),
            },
        }
    } else {
        match spec_expect(toks, i, TokenKind::LiteralInt) {
            Err(e) => Err(e),
            Ok((t, j)) => Ok((ExpressionModel::Literal(t), j)),
        }
    }
}

/// A parse position forced into `(lo, len]`: the recursions below run on
/// clamped positions so that they visibly terminate, and the soundness
/// lemmas below show the clamp never moves a position an inner parse
/// produced.
pub open spec fn clamp_pos(len: int, lo: int, k: int) -> int {
    if lo < k <= len {
        k
    } else if lo + 1 <= len {
        lo + 1
    } else {
        len
    }
}

/// The left-associative fold of `( ('*' | '/') primary )*` onto `left`.
pub open spec fn spec_parse_factor_more(toks: Seq<SpecToken>, left: ExpressionModel, j: int) -> Result<
    (ExpressionModel, int),
    ParseErrorModel,
>
    decreases toks.len() - j, 3int,
{
    if 0 <= j < toks.len() && (toks[j] == SpecToken::Star || toks[j] == SpecToken::Slash) {
        let op = toks[j];
        match spec_parse_primary(toks, j + 1) {
            Err(e) => Err(e),
            Ok((right, k)) => {
                let k2 = clamp_pos(toks.len() as int, j + 1, k);
                spec_parse_factor_more(
                    toks,
                    ExpressionModel::Binary(Box::new(left), op, Box::new(right)),
                    k2,
                )
            },
        }
    } else {
        Ok((left, j))
    }
}

/// factor := primary ( ('*' | '/') primary )*
pub open spec fn spec_parse_factor(toks: Seq<SpecToken>, i: int) -> Result<
    (ExpressionModel, int),
    ParseErrorModel,
>
    decreases toks.len() - i, 1int,
{
    if i < 0 || i >= toks.len() {
        Err(ParseErrorModel::UnexpectedEndOfInput)
    } else {
        match spec_parse_primary(toks, i) {
            Err(e) => Err(e),
            Ok((left, j)) => {
                let j2 = clamp_pos(toks.len() as int, i, j);
                spec_parse_factor_more(toks, left, j2)
            },
        }
    }
}

/// The left-associative fold of `( ('+' | '-') factor )*` onto `left`.
pub open spec fn spec_parse_term_more(toks: Seq<SpecToken>, left: ExpressionModel, j: int) -> Result<
    (ExpressionModel, int),
    ParseErrorModel,
>
    decreases toks.len() - j, 3int,
{
    if 0 <= j < toks.len() && (toks[j] == SpecToken::Plus || toks[j] == SpecToken::Dash) {
        let op = toks[j];
        match spec_parse_factor(toks, j + 1) {
            Err(e) => Err(e),
            Ok((right, k)) => {
                let k2 = clamp_pos(toks.len() as int, j + 1, k);
                spec_parse_term_more(
                    toks,
                    ExpressionModel::Binary(Box::new(left), op, Box::new(right)),
                    k2,
                )
            },
        }
    } else {
        Ok((left, j))
    }
}

/// term := factor ( ('+' | '-') factor )*
pub open spec fn spec_parse_term(toks: Seq<SpecToken>, i: int) -> Result<
    (ExpressionModel, int),
    ParseErrorModel,
>
    decreases toks.len() - i, 2int,
{
    if i < 0 || i >= toks.len() {
        Err(ParseErrorModel::UnexpectedEndOfInput)
    } else {
        match spec_parse_factor(toks, i) {
            Err(e) => Err(e),
            Ok((left, j)) => {
                let j2 = clamp_pos(toks.len() as int, i, j);
                spec_parse_term_more(toks, left, j2)
            },
        }
    }
}

/// The token sequence with whitespace and comment tokens filtered out.
pub open spec fn filtered(ts: Seq<SpecToken>) -> Seq<SpecToken> {
    ts.filter(|t: SpecToken| !is_trivia(t))
}

/// The whole parse: the filtered tokens must hold one expression followed by
/// exactly the end-of-file token.
pub open spec fn spec_parser(ts: Seq<SpecToken>) -> Result<SyntaxTreeModel, ParseErrorModel> {
    let f = filtered(ts);
    match spec_parse_term(f, 0) {
        Err(e) => Err(e),
        Ok((expr, j)) => match spec_expect(f, j, TokenKind::EndOfFile) {
            Err(e) => Err(e),
            Ok((eof, _)) => Ok(
                SyntaxTreeModel { inner_expression: expr, end_of_file_token: eof },
            ),
        },
    }
}

/// How one step of the executable parser relates to its specification: same
/// tree and same position on success, same error on failure.
pub open spec fn step_matches(
    r: Result<(Expression, usize), ParseError>,
    s: Result<(ExpressionModel, int), ParseErrorModel>,
) -> bool {
    match (r, s) {
        (Ok(p), Ok(q)) => p.0@ == q.0 && p.1 as int == q.1,
        (Err(e), Err(em)) => e@ == em,
        _ => false,
    }
}

/// An owned copy of one token.
fn clone_token(t: &LexerToken) -> (r: LexerToken)
    ensures
        r@ == t@,
{
    match t {
        LexerToken::EndOfFile => LexerToken::EndOfFile,
        LexerToken::Whitespace => LexerToken::Whitespace,
        LexerToken::Comment(x) => LexerToken::Comment(x.clone()),
        LexerToken::Identifier(x) => LexerToken::Identifier(x.clone()),
        LexerToken::FalseKeyword => LexerToken::FalseKeyword,
        LexerToken::TrueKeyword => LexerToken::TrueKeyword,
        LexerToken::FloatKeyword => LexerToken::FloatKeyword,
        LexerToken::IntKeyword => LexerToken::IntKeyword,
        LexerToken::BoolKeyword => LexerToken::BoolKeyword,
        LexerToken::SelectorKeyword => LexerToken::SelectorKeyword,
        LexerToken::StringKeyword => LexerToken::StringKeyword,
        LexerToken::FunctionKeyword => LexerToken::FunctionKeyword,
        LexerToken::LiteralInt(v) => LexerToken::LiteralInt(*v),
        LexerToken::LiteralFloat(x) => LexerToken::LiteralFloat(x.clone()),
        LexerToken::LiteralSelector(sel) => LexerToken::LiteralSelector(
            Selector { selector_type: sel.selector_type, body: sel.body.clone() },
        ),
        LexerToken::LiteralString(x) => LexerToken::LiteralString(x.clone()),
        LexerToken::OpenParenthesis => LexerToken::OpenParenthesis,
        LexerToken::CloseParenthesis => LexerToken::CloseParenthesis,
        LexerToken::Semicolon => LexerToken::Semicolon,
        LexerToken::Period => LexerToken::Period,
        LexerToken::Plus => LexerToken::Plus,
        LexerToken::Dash => LexerToken::Dash,
        LexerToken::Star => LexerToken::Star,
        LexerToken::Slash => LexerToken::Slash,
        LexerToken::Bang => LexerToken::Bang,
        LexerToken::BangEquals => LexerToken::BangEquals,
        LexerToken::Equals => LexerToken::Equals,
        LexerToken::DoubleEquals => LexerToken::DoubleEquals,
    }
}

/// The kind of one token.
fn token_kind(t: &LexerToken) -> (k: TokenKind)
    ensures
        k == kind_of(t@),
{
    match t {
        LexerToken::EndOfFile => TokenKind::EndOfFile,
        LexerToken::Whitespace => TokenKind::Whitespace,
        LexerToken::Comment(_) => TokenKind::Comment,
        LexerToken::Identifier(_) => TokenKind::Identifier,
        LexerToken::FalseKeyword => TokenKind::FalseKeyword,
        LexerToken::TrueKeyword => TokenKind::TrueKeyword,
        LexerToken::FloatKeyword => TokenKind::FloatKeyword,
        LexerToken::IntKeyword => TokenKind::IntKeyword,
        LexerToken::BoolKeyword => TokenKind::BoolKeyword,
        LexerToken::SelectorKeyword => TokenKind::SelectorKeyword,
        LexerToken::StringKeyword => TokenKind::StringKeyword,
        LexerToken::FunctionKeyword => TokenKind::FunctionKeyword,
        LexerToken::LiteralInt(_) => TokenKind::LiteralInt,
        LexerToken::LiteralFloat(_) => TokenKind::LiteralFloat,
        LexerToken::LiteralSelector(_) => TokenKind::LiteralSelector,
        LexerToken::LiteralString(_) => TokenKind::LiteralString,
        LexerToken::OpenParenthesis => TokenKind::OpenParenthesis,
        LexerToken::CloseParenthesis => TokenKind::CloseParenthesis,
        LexerToken::Semicolon => TokenKind::Semicolon,
        LexerToken::Period => TokenKind::Period,
        LexerToken::Plus => TokenKind::Plus,
        LexerToken::Dash => TokenKind::Dash,
        LexerToken::Star => TokenKind::Star,
        LexerToken::Slash => TokenKind::Slash,
        LexerToken::Bang => TokenKind::Bang,
        LexerToken::BangEquals => TokenKind::BangEquals,
        LexerToken::Equals => TokenKind::Equals,
        LexerToken::DoubleEquals => TokenKind::DoubleEquals,
    }
}

/// Consumes the token at `i` when its kind equals `expected`: any integer
/// literal matches an expected integer literal, but a fixed token matches
/// only its own kind. Reading past the end of the tokens is reported, never
/// a crash.
fn expect_token_type(tokens: &Vec<LexerToken>, i: usize, expected: TokenKind) -> (r: Result<
    (LexerToken, usize),
    ParseError,
>)
    ensures
        match (r, spec_expect(toks_view(tokens@), i as int, expected)) {
            (Ok(p), Ok(q)) => p.0@ == q.0 && p.1 as int == q.1 && p.1 == i + 1,
            (Err(e), Err(em)) => e@ == em,
            _ => false,
        },
{
    proof {
        assert(toks_view(tokens@).len() == tokens@.len());
    }
    if i >= tokens.len() {
        return Err(ParseError::UnexpectedEndOfInput);
    }
    proof {
        assert(toks_view(tokens@)[i as int] == tokens@[i as int]@);
    }
    let k = token_kind(&tokens[i]);
    if k == expected {
        Ok((clone_token(&tokens[i]), i + 1))
    } else {
        Err(ParseError::UnexpectedToken(clone_token(&tokens[i]), expected))
    }
}

/// primary := '(' expression ')' | literal-int
fn parse_primary_expression(tokens: &Vec<LexerToken>, i: usize) -> (r: Result<
    (Expression, usize),
    ParseError,
>)
    requires
        i <= tokens@.len(),
    ensures
        step_matches(r, spec_parse_primary(toks_view(tokens@), i as int)),
        (match r {
            Ok(p) => i < p.1 <= tokens@.len(),
            Err(_) => true,
        }),
    decreases tokens@.len() - i, 0int,
{
    let ghost toks = toks_view(tokens@);
    proof {
        assert(toks.len() == tokens@.len());
    }
    if i >= tokens.len() {
        return Err(ParseError::UnexpectedEndOfInput);
    }
    proof {
        assert(toks[i as int] == tokens@[i as int]@);
    }
    let is_open = match &tokens[i] {
        LexerToken::OpenParenthesis => true,
        _ => false,
    };
    if is_open {
        let (open_tok, i1) = match expect_token_type(tokens, i, TokenKind::OpenParenthesis) {
            Ok(p) => p,
            Err(e) => return Err(e),
        };
        let (inner, i2) = match parse_expression(tokens, i1) {
            Ok(p) => p,
            Err(e) => return Err(e),
        };
        let (close_tok, i3) = match expect_token_type(tokens, i2, TokenKind::CloseParenthesis) {
            Ok(p) => p,
            Err(e) => return Err(e),
        };
        Ok((Expression::ParenthesesExpression(open_tok, Box::new(inner), close_tok), i3))
    } else {
        match expect_token_type(tokens, i, TokenKind::LiteralInt) {
            Ok((t, j)) => Ok((Expression::LiteralExpression(t), j)),
            Err(e) => Err(e),
        }
    }
}

/// expression := term
fn parse_expression(tokens: &Vec<LexerToken>, i: usize) -> (r: Result<
    (Expression, usize),
    ParseError,
>)
    requires
        i <= tokens@.len(),
    ensures
        step_matches(r, spec_parse_term(toks_view(tokens@), i as int)),
        (match r {
            Ok(p) => i < p.1 <= tokens@.len(),
            Err(_) => true,
        }),
    decreases tokens@.len() - i, 3int,
{
    parse_term_expression(tokens, i)
}

/// factor := primary ( ('*' | '/') primary )*
fn parse_factor_expression(tokens: &Vec<LexerToken>, i: usize) -> (r: Result<
    (Expression, usize),
    ParseError,
>)
    requires
        i <= tokens@.len(),
    ensures
        step_matches(r, spec_parse_factor(toks_view(tokens@), i as int)),
        (match r {
            Ok(p) => i < p.1 <= tokens@.len(),
            Err(_) => true,
        }),
    decreases tokens@.len() - i, 1int,
{
    let ghost toks = toks_view(tokens@);
    proof {
        assert(toks.len() == tokens@.len());
    }
    if i >= tokens.len() {
        return Err(ParseError::UnexpectedEndOfInput);
    }
    let (first, j0) = match parse_primary_expression(tokens, i) {
        Ok(p) => p,
        Err(e) => return Err(e),
    };
    proof {
        assert(clamp_pos(toks.len() as int, i as int, j0 as int) == j0 as int);
    }
    let mut left = first;
    let mut j = j0;
    loop
        invariant
            toks == toks_view(tokens@),
            toks.len() == tokens@.len(),
            i < j <= tokens@.len(),
            spec_parse_factor(toks, i as int) == spec_parse_factor_more(toks, left@, j as int),
        ensures
            i < j <= tokens@.len(),
            spec_parse_factor(toks, i as int) == Ok::<(ExpressionModel, int), ParseErrorModel>(
                (left@, j as int),
            ),
        decreases tokens@.len() - j,
    {
        if j >= tokens.len() {
            break;
        }
        proof {
            assert(toks[j as int] == tokens@[j as int]@);
        }
        let is_op = match &tokens[j] {
            LexerToken::Star => true,
            LexerToken::Slash => true,
            _ => false,
        };
        if !is_op {
            break;
        }
        let op = clone_token(&tokens[j]);
        let (right, k) = match parse_primary_expression(tokens, j + 1) {
            Ok(p) => p,
            Err(e) => return Err(e),
        };
        proof {
            assert(clamp_pos(toks.len() as int, j + 1, k as int) == k as int);
            assert(spec_parse_factor_more(toks, left@, j as int) == spec_parse_factor_more(
                toks,
                ExpressionModel::Binary(Box::new(left@), op@, Box::new(right@)),
                k as int,
            ));
        }
        left = Expression::BinaryExpression(Box::new(left), op, Box::new(right));
        j = k;
    }
    Ok((left, j))
}

/// term := factor ( ('+' | '-') factor )*
fn parse_term_expression(tokens: &Vec<LexerToken>, i: usize) -> (r: Result<
    (Expression, usize),
    ParseError,
>)
    requires
        i <= tokens@.len(),
    ensures
        step_matches(r, spec_parse_term(toks_view(tokens@), i as int)),
        (match r {
            Ok(p) => i < p.1 <= tokens@.len(),
            Err(_) => true,
        }),
    decreases tokens@.len() - i, 2int,
{
    let ghost toks = toks_view(tokens@);
    proof {
        assert(toks.len() == tokens@.len());
    }
    if i >= tokens.len() {
        return Err(ParseError::UnexpectedEndOfInput);
    }
    let (first, j0) = match parse_factor_expression(tokens, i) {
        Ok(p) => p,
        Err(e) => return Err(e),
    };
    proof {
        assert(clamp_pos(toks.len() as int, i as int, j0 as int) == j0 as int);
    }
    let mut left = first;
    let mut j = j0;
    loop
        invariant
            toks == toks_view(tokens@),
            toks.len() == tokens@.len(),
            i < j <= tokens@.len(),
            spec_parse_term(toks, i as int) == spec_parse_term_more(toks, left@, j as int),
        ensures
            i < j <= tokens@.len(),
            spec_parse_term(toks, i as int) == Ok::<(ExpressionModel, int), ParseErrorModel>(
                (left@, j as int),
            ),
        decreases tokens@.len() - j,
    {
        if j >= tokens.len() {
            break;
        }
        proof {
            assert(toks[j as int] == tokens@[j as int]@);
        }
        let is_op = match &tokens[j] {
            LexerToken::Plus => true,
            LexerToken::Dash => true,
            _ => false,
        };
        if !is_op {
            break;
        }
        let op = clone_token(&tokens[j]);
        let (right, k) = match parse_factor_expression(tokens, j + 1) {
            Ok(p) => p,
            Err(e) => return Err(e),
        };
        proof {
            assert(clamp_pos(toks.len() as int, j + 1, k as int) == k as int);
            assert(spec_parse_term_more(toks, left@, j as int) == spec_parse_term_more(
                toks,
                ExpressionModel::Binary(Box::new(left@), op@, Box::new(right@)),
                k as int,
            ));
        }
        left = Expression::BinaryExpression(Box::new(left), op, Box::new(right));
        j = k;
    }
    Ok((left, j))
}

/// The tokens of an expression, in source order.
pub open spec fn flatten(e: ExpressionModel) -> Seq<SpecToken>
    decreases e,
{
    match e {
        ExpressionModel::Literal(t) => seq![t],
        ExpressionModel::Binary(l, op, r) => flatten(*l) + seq![op] + flatten(*r),
        ExpressionModel::Unary(op, a) => seq![op] + flatten(*a),
        ExpressionModel::Parentheses(o, a, c) => seq![o] + flatten(*a) + seq![c],
    }
}

/// A well-formed primary: an integer literal, or a parenthesized term.
pub open spec fn is_primary_node(e: ExpressionModel) -> bool
    decreases e, 0int,
{
    match e {
        ExpressionModel::Literal(t) => kind_of(t) == TokenKind::LiteralInt,
        ExpressionModel::Parentheses(o, a, c) => o == SpecToken::OpenParenthesis && kind_of(c)
            == TokenKind::CloseParenthesis && is_term_node(*a),
        _ => false,
    }
}

/// A well-formed factor: multiplicative operators only, folded to the left,
/// with a primary as each right operand.
pub open spec fn is_factor_node(e: ExpressionModel) -> bool
    decreases e, 1int,
{
    is_primary_node(e) || (match e {
        ExpressionModel::Binary(l, op, r) => (op == SpecToken::Star || op == SpecToken::Slash)
            && is_factor_node(*l) && is_primary_node(*r),
        _ => false,
    })
}

/// A well-formed term: additive operators only, folded to the left, with a
/// factor as each right operand. This shape is what makes multiplication
/// bind tighter than addition and both tiers left-associative: no other
/// placement of operators in the tree satisfies it.
pub open spec fn is_term_node(e: ExpressionModel) -> bool
    decreases e, 2int,
{
    is_factor_node(e) || (match e {
        ExpressionModel::Binary(l, op, r) => (op == SpecToken::Plus || op == SpecToken::Dash)
            && is_term_node(*l) && is_factor_node(*r),
        _ => false,
    })
}

proof fn lemma_primary_sound(toks: Seq<SpecToken>, i: int)
    requires
        0 <= i,
    ensures
        match spec_parse_primary(toks, i) {
            Ok((e, j)) => i < j <= toks.len() && is_primary_node(e) && flatten(e)
                == toks.subrange(i, j),
            Err(_) => true,
        },
    decreases toks.len() - i, 0int,
{
    if i < toks.len() {
        if toks[i] == SpecToken::OpenParenthesis {
            lemma_term_sound(toks, i + 1);
            match spec_parse_term(toks, i + 1) {
                Ok((inner, j)) => {
                    match spec_expect(toks, j, TokenKind::CloseParenthesis) {
                        Ok((close, j2)) => {
                            let e = ExpressionModel::Parentheses(
                                toks[i],
                                Box::new(inner),
                                close,
                            );
                            assert(flatten(e) =~= toks.subrange(i, j2));
                        },
                        Err(_) => {},
                    }
                },
                Err(_) => {},
            }
        } else {
            match spec_expect(toks, i, TokenKind::LiteralInt) {
                Ok((t, j)) => {
                    assert(flatten(ExpressionModel::Literal(t)) =~= toks.subrange(i, j));
                },
                Err(_) => {},
            }
        }
    }
}

proof fn lemma_factor_more_sound(toks: Seq<SpecToken>, left: ExpressionModel, j: int)
    requires
        0 <= j <= toks.len(),
        is_factor_node(left),
    ensures
        match spec_parse_factor_more(toks, left, j) {
            Ok((e, k)) => j <= k <= toks.len() && is_factor_node(e) && flatten(e) == flatten(
                left,
            ) + toks.subrange(j, k),
            Err(_) => true,
        },
    decreases toks.len() - j, 3int,
{
    if j < toks.len() && (toks[j] == SpecToken::Star || toks[j] == SpecToken::Slash) {
        lemma_primary_sound(toks, j + 1);
        match spec_parse_primary(toks, j + 1) {
            Ok((right, k)) => {
                let k2 = clamp_pos(toks.len() as int, j + 1, k);
                assert(k2 == k);
                let folded = ExpressionModel::Binary(Box::new(left), toks[j], Box::new(right));
                assert(flatten(folded) =~= flatten(left) + toks.subrange(j, k));
                lemma_factor_more_sound(toks, folded, k);
                match spec_parse_factor_more(toks, folded, k) {
                    Ok((e, m)) => {
                        assert(flatten(left) + toks.subrange(j, k) + toks.subrange(k, m)
                            =~= flatten(left) + toks.subrange(j, m));
                    },
                    Err(_) => {},
                }
            },
            Err(_) => {},
        }
    } else {
        assert(flatten(left) + toks.subrange(j, j) =~= flatten(left));
    }
}

proof fn lemma_factor_sound(toks: Seq<SpecToken>, i: int)
    requires
        0 <= i,
    ensures
        match spec_parse_factor(toks, i) {
            Ok((e, j)) => i < j <= toks.len() && is_factor_node(e) && flatten(e)
                == toks.subrange(i, j),
            Err(_) => true,
        },
    decreases toks.len() - i, 1int,
{
    if i < toks.len() {
        lemma_primary_sound(toks, i);
        match spec_parse_primary(toks, i) {
            Ok((left, j)) => {
                let j2 = clamp_pos(toks.len() as int, i, j);
                assert(j2 == j);
                lemma_factor_more_sound(toks, left, j);
                match spec_parse_factor_more(toks, left, j) {
                    Ok((e, k)) => {
                        assert(toks.subrange(i, j) + toks.subrange(j, k) =~= toks.subrange(
                            i,
                            k,
                        ));
                    },
                    Err(_) => {},
                }
            },
            Err(_) => {},
        }
    }
}

proof fn lemma_term_more_sound(toks: Seq<SpecToken>, left: ExpressionModel, j: int)
    requires
        0 <= j <= toks.len(),
        is_term_node(left),
    ensures
        match spec_parse_term_more(toks, left, j) {
            Ok((e, k)) => j <= k <= toks.len() && is_term_node(e) && flatten(e) == flatten(left)
                + toks.subrange(j, k),
            Err(_) => true,
        },
    decreases toks.len() - j, 3int,
{
    if j < toks.len() && (toks[j] == SpecToken::Plus || toks[j] == SpecToken::Dash) {
        lemma_factor_sound(toks, j + 1);
        match spec_parse_factor(toks, j + 1) {
            Ok((right, k)) => {
                let k2 = clamp_pos(toks.len() as int, j + 1, k);
                assert(k2 == k);
                let folded = ExpressionModel::Binary(Box::new(left), toks[j], Box::new(right));
                assert(flatten(folded) =~= flatten(left) + toks.subrange(j, k));
                lemma_term_more_sound(toks, folded, k);
                match spec_parse_term_more(toks, folded, k) {
                    Ok((e, m)) => {
                        assert(flatten(left) + toks.subrange(j, k) + toks.subrange(k, m)
                            =~= flatten(left) + toks.subrange(j, m));
                    },
                    Err(_) => {},
                }
            },
            Err(_) => {},
        }
    } else {
        assert(flatten(left) + toks.subrange(j, j) =~= flatten(left));
    }
}

proof fn lemma_term_sound(toks: Seq<SpecToken>, i: int)
    requires
        0 <= i,
    ensures
        match spec_parse_term(toks, i) {
            Ok((e, j)) => i < j <= toks.len() && is_term_node(e) && flatten(e) == toks.subrange(
                i,
                j,
            ),
            Err(_) => true,
        },
    decreases toks.len() - i, 2int,
{
    if i < toks.len() {
        lemma_factor_sound(toks, i);
        match spec_parse_factor(toks, i) {
            Ok((left, j)) => {
                let j2 = clamp_pos(toks.len() as int, i, j);
                assert(j2 == j);
                lemma_term_more_sound(toks, left, j);
                match spec_parse_term_more(toks, left, j) {
                    Ok((e, k)) => {
                        assert(toks.subrange(i, j) + toks.subrange(j, k) =~= toks.subrange(
                            i,
                            k,
                        ));
                    },
                    Err(_) => {},
                }
            },
            Err(_) => {},
        }
    }
}

/// Soundness of the parse: a successful parse yields a well-formed term
/// (multiplicative operators bind tighter than additive ones and both tiers
/// fold to the left), whose tokens, followed by the consumed end-of-file
/// token, are exactly the leading filtered tokens of the input.
pub proof fn lemma_parser_sound(ts: Seq<SpecToken>)
    ensures
        match spec_parser(ts) {
            Ok(tree) => is_term_node(tree.inner_expression) && kind_of(tree.end_of_file_token)
                == TokenKind::EndOfFile && flatten(tree.inner_expression).push(
                tree.end_of_file_token,
            ).is_prefix_of(filtered(ts)),
            Err(_) => true,
        },
{
    let f = filtered(ts);
    lemma_term_sound(f, 0);
    match spec_parse_term(f, 0) {
        Ok((expr, j)) => {
            match spec_expect(f, j, TokenKind::EndOfFile) {
                Ok((eof, _)) => {
                    assert(flatten(expr).push(eof) =~= f.subrange(0, j + 1));
                    assert(f.subrange(0, j + 1).is_prefix_of(f)) by {
                        assert(f.subrange(0, j + 1) =~= f.take(j + 1));
                    }
                },
                Err(_) => {},
            }
        },
        Err(_) => {},
    }
}

proof fn lemma_filtered_push(s: Seq<SpecToken>, x: SpecToken)
    ensures
        filtered(s.push(x)) == if is_trivia(x) {
            filtered(s)
        } else {
            filtered(s).push(x)
        },
{
    reveal_with_fuel(Seq::filter, 2);
    assert(s.push(x).drop_last() =~= s);
    assert(s.push(x).last() == x);
}

/// Parses a token sequence into a syntax tree: whitespace and comments are
/// filtered out, one expression is parsed, and the next token must be
/// exactly the end-of-file token. Returns exactly the tree (or exactly the
/// error) of [`spec_parser`].
pub fn parser(input: Vec<LexerToken>) -> (r: Result<Box<SyntaxTree>, ParseError>)
    ensures
        (match r {
            Ok(tree) => spec_parser(toks_view(input@)) == Ok::<SyntaxTreeModel, ParseErrorModel>(
                tree@,
            ),
            Err(e) => spec_parser(toks_view(input@)) == Err::<SyntaxTreeModel, ParseErrorModel>(
                e@,
            ),
        }),
{
    let ghost ts = toks_view(input@);
    proof {
        assert(ts.len() == input@.len());
    }
    let mut kept: Vec<LexerToken> = Vec::new();
    let mut k: usize = 0;
    proof {
        reveal_with_fuel(Seq::filter, 2);
        assert(ts.take(0) =~= Seq::<SpecToken>::empty());
        assert(toks_view(kept@) =~= Seq::<SpecToken>::empty());
        assert(filtered(ts.take(0)) == Seq::<SpecToken>::empty());
    }
    while k < input.len()
        invariant
            ts == toks_view(input@),
            ts.len() == input@.len(),
            0 <= k <= input@.len(),
            toks_view(kept@) == filtered(ts.take(k as int)),
        decreases input@.len() - k,
    {
        let keep = match &input[k] {
            LexerToken::Whitespace => false,
            LexerToken::Comment(_) => false,
            _ => true,
        };
        proof {
            assert(ts[k as int] == input@[k as int]@);
            assert(keep == !is_trivia(ts[k as int]));
            lemma_filtered_push(ts.take(k as int), ts[k as int]);
            assert(ts.take(k + 1) =~= ts.take(k as int).push(ts[k as int]));
        }
        if keep {
            let t = clone_token(&input[k]);
            proof {
                assert(toks_view(kept@.push(t)) =~= toks_view(kept@).push(t@));
            }
            kept.push(t);
        }
        k = k + 1;
    }
    proof {
        assert(ts.take(input@.len() as int) =~= ts);
    }
    let (expr, j) = match parse_term_expression(&kept, 0) {
        Ok(p) => p,
        Err(e) => return Err(e),
    };
    let (eof_tok, _after) = match expect_token_type(&kept, j, TokenKind::EndOfFile) {
        Ok(p) => p,
        Err(e) => return Err(e),
    };
    Ok(Box::new(SyntaxTree { inner_expression: Box::new(expr), end_of_file_token: eof_tok }))
}

} // verus!

