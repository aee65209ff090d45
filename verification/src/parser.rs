//! The abstract syntax tree and the recursive-descent, precedence-climbing
//! parser that builds it from the token sequence.
//!
//! The executable parser is specified against a family of `*_spec`
//! functions: a mathematical parser over token views that returns either the
//! parsed form together with the unconsumed suffix of the tokens, or the
//! parse error the executable parser reports.  A semicolon after an
//! expression statement is consumed; after a let or return statement it is
//! required.

use crate::lexer::{toks_view, Token, TokenView};
use std::collections::VecDeque;
use vstd::prelude::*;

verus! {

#[derive(Debug, PartialEq)]
pub enum Statement {
    Let { name: String, value: Expression },
    Return { value: Expression },
    ExpressionStatement(Expression),
}

#[derive(Debug, PartialEq)]
pub enum Expression {
    Int(i64),
    Boolean(bool),
    Ident(String),
    String(String),
    Infix { left: Box<Expression>, op: Operator, right: Box<Expression> },
    Prefix { prefix: Prefix, value: Box<Expression> },
    If { condition: Box<Expression>, consequence: Vec<Statement>, alternative: Vec<Statement> },
    FnLiteral { parameters: Vec<String>, body: Vec<Statement> },
    FnCall { function: Box<Expression>, args: Vec<Expression> },
}

#[derive(Debug, PartialEq, Eq, Structural, Clone, Copy)]
pub enum Prefix {
    BANG,
    MINUS,
}

#[derive(Debug, PartialEq, Eq, Structural, Clone, Copy)]
pub enum Operator {
    PLUS,
    MINUS,
    MULTIPLY,
    DIVIDE,
    GREATER,
    LESS,
    EQUAL,
    NEQUAL,
}

/// The mathematical value of a `Statement`.
pub enum StmtView {
    Let { name: Seq<char>, value: ExprView },
    Return { value: ExprView },
    ExpressionStatement(ExprView),
}

/// The mathematical value of an `Expression`: text becomes character
/// sequences and vectors become sequences.
pub enum ExprView {
    Int(i64),
    Boolean(bool),
    Ident(Seq<char>),
    String(Seq<char>),
    Infix { left: Box<ExprView>, op: Operator, right: Box<ExprView> },
    Prefix { prefix: Prefix, value: Box<ExprView> },
    If { condition: Box<ExprView>, consequence: Seq<StmtView>, alternative: Seq<StmtView> },
    FnLiteral { parameters: Seq<Seq<char>>, body: Seq<StmtView> },
    FnCall { function: Box<ExprView>, args: Seq<ExprView> },
}

pub open spec fn expr_view(e: Expression) -> ExprView
    decreases e,
{
    match e {
        Expression::Int(v) => ExprView::Int(v),
        Expression::Boolean(b) => ExprView::Boolean(b),
        Expression::Ident(s) => ExprView::Ident(s@),
        Expression::String(s) => ExprView::String(s@),
        Expression::Infix { left, op, right } => ExprView::Infix {
            left: Box::new(expr_view(*left)),
            op,
            right: Box::new(expr_view(*right)),
        },
        Expression::Prefix { prefix, value } => ExprView::Prefix {
            prefix,
            value: Box::new(expr_view(*value)),
        },
        Expression::If { condition, consequence, alternative } => ExprView::If {
            condition: Box::new(expr_view(*condition)),
            consequence: stmts_view(consequence@),
            alternative: stmts_view(alternative@),
        },
        Expression::FnLiteral { parameters, body } => ExprView::FnLiteral {
            parameters: strings_view(parameters@),
            body: stmts_view(body@),
        },
        Expression::FnCall { function, args } => ExprView::FnCall {
            function: Box::new(expr_view(*function)),
            args: exprs_view(args@),
        },
    }
}

pub open spec fn stmt_view(s: Statement) -> StmtView
    decreases s,
{
    match s {
        Statement::Let { name, value } => StmtView::Let { name: name@, value: expr_view(value) },
        Statement::Return { value } => StmtView::Return { value: expr_view(value) },
        Statement::ExpressionStatement(e) => StmtView::ExpressionStatement(expr_view(e)),
    }
}

/// The views of a statement sequence.
pub open spec fn stmts_view(v: Seq<Statement>) -> Seq<StmtView>
    decreases v,
{
    if v.len() == 0 {
        Seq::empty()
    } else {
        seq![stmt_view(v[0])] + stmts_view(v.subrange(1, v.len() as int))
    }
}

/// The views of an expression sequence.
pub open spec fn exprs_view(v: Seq<Expression>) -> Seq<ExprView>
    decreases v,
{
    if v.len() == 0 {
        Seq::empty()
    } else {
        seq![expr_view(v[0])] + exprs_view(v.subrange(1, v.len() as int))
    }
}

/// The views of a sequence of names.
pub open spec fn strings_view(v: Seq<String>) -> Seq<Seq<char>> {
    v.map_values(|p: String| p@)
}


/// The parse error the parser reports instead of continuing on malformed
/// input.
#[derive(Debug, PartialEq, Eq, Structural, Clone, Copy)]
pub enum ParseError {
    UnexpectedToken,
    UnexpectedEnd,
    ExpectedIdent,
    ExpectedAssign,
    ExpectedSemicolon,
    ExpectedLParen,
    ExpectedRParen,
    ExpectedLBrace,
    ExpectedRBrace,
}

pub const LOWEST: u8 = 0;

pub const EQUALS: u8 = 1;

pub const LESSGREATER: u8 = 2;

pub const SUM: u8 = 3;

pub const PRODUCT: u8 = 4;

pub const PREFIX: u8 = 5;

/// The binding power of the token when it appears as an infix operator.
pub open spec fn token_precedence(t: TokenView) -> u8 {
    match t {
        TokenView::PLUS => SUM,
        TokenView::MINUS => SUM,
        TokenView::LT => LESSGREATER,
        TokenView::GT => LESSGREATER,
        TokenView::EQ => EQUALS,
        TokenView::NEQ => EQUALS,
        TokenView::ASTERISK => PRODUCT,
        TokenView::SLASH => PRODUCT,
        _ => LOWEST,
    }
}

impl Token {
    /// The binding power of this token when it appears as an infix operator.
    pub fn precedence(&self) -> (r: u8)
        ensures
            r == token_precedence(self@),
    {
        match self {
            Token::PLUS => SUM,
            Token::MINUS => SUM,
            Token::LT => LESSGREATER,
            Token::GT => LESSGREATER,
            Token::EQ => EQUALS,
            Token::NEQ => EQUALS,
            Token::ASTERISK => PRODUCT,
            Token::SLASH => PRODUCT,
            _ => LOWEST,
        }
    }
}

/// What parsing a statement list yields: the statements and the unconsumed
/// suffix of the tokens (the closing `EOF` or `RBRACE` is left in place), or
/// the error reported.  Mirrors the executable `parse`.
pub open spec fn parse_spec(ts: Seq<TokenView>) -> Result<
    (Seq<StmtView>, Seq<TokenView>),
    ParseError,
>
    decreases ts.len(), 4int,
{
    if ts.len() == 0 {
        Err(ParseError::UnexpectedEnd)
    } else {
        match ts[0] {
            TokenView::EOF => Ok((Seq::empty(), ts)),
            TokenView::RBRACE => Ok((Seq::empty(), ts)),
            TokenView::LET => match parse_let_spec(ts.subrange(1, ts.len() as int)) {
                Ok((st, r2)) => if r2.len() == 0 {
                    Err(ParseError::UnexpectedEnd)
                } else if !(r2[0] is SEMICOLON) {
                    Err(ParseError::ExpectedSemicolon)
                } else if r2.len() < ts.len() {
                    match parse_spec(r2.subrange(1, r2.len() as int)) {
                        Ok((sts, r3)) => Ok((seq![st] + sts, r3)),
                        Err(e) => Err(e),
                    }
                } else {
                    Err(ParseError::UnexpectedEnd)
                },
                Err(e) => Err(e),
            },
            TokenView::RETURN => match parse_return_spec(ts.subrange(1, ts.len() as int)) {
                Ok((st, r2)) => if r2.len() == 0 {
                    Err(ParseError::UnexpectedEnd)
                } else if !(r2[0] is SEMICOLON) {
                    Err(ParseError::ExpectedSemicolon)
                } else if r2.len() < ts.len() {
                    match parse_spec(r2.subrange(1, r2.len() as int)) {
                        Ok((sts, r3)) => Ok((seq![st] + sts, r3)),
                        Err(e) => Err(e),
                    }
                } else {
                    Err(ParseError::UnexpectedEnd)
                },
                Err(e) => Err(e),
            },
            _ => match parse_expr_spec(ts, LOWEST) {
                Ok((e, r2)) => {
                    let r2b = if r2.len() > 0 && r2[0] is SEMICOLON {
                        r2.subrange(1, r2.len() as int)
                    } else {
                        r2
                    };
                    if r2b.len() < ts.len() {
                        match parse_spec(r2b) {
                            Ok((sts, r3)) => Ok(
                                (seq![StmtView::ExpressionStatement(e)] + sts, r3),
                            ),
                            Err(err) => Err(err),
                        }
                    } else {
                        Err(ParseError::UnexpectedEnd)
                    }
                },
                Err(err) => Err(err),
            },
        }
    }
}

/// What parsing a let statement (after its `let` keyword) yields.  Mirrors
/// the executable `parse_let`.
pub open spec fn parse_let_spec(ts: Seq<TokenView>) -> Result<
    (StmtView, Seq<TokenView>),
    ParseError,
>
    decreases ts.len(), 3int,
{
    if ts.len() == 0 {
        Err(ParseError::ExpectedIdent)
    } else {
        match ts[0] {
            TokenView::IDENT(name) => if ts.len() < 2 {
                Err(ParseError::ExpectedAssign)
            } else if !(ts[1] is ASSIGN) {
                Err(ParseError::ExpectedAssign)
            } else {
                match parse_expr_spec(ts.subrange(2, ts.len() as int), LOWEST) {
                    Ok((v, r)) => Ok((StmtView::Let { name, value: v }, r)),
                    Err(e) => Err(e),
                }
            },
            _ => Err(ParseError::ExpectedIdent),
        }
    }
}

/// What parsing a return statement (after its `return` keyword) yields.
/// Mirrors the executable `parse_return`.
pub open spec fn parse_return_spec(ts: Seq<TokenView>) -> Result<
    (StmtView, Seq<TokenView>),
    ParseError,
>
    decreases ts.len(), 3int,
{
    match parse_expr_spec(ts, LOWEST) {
        Ok((v, r)) => Ok((StmtView::Return { value: v }, r)),
        Err(e) => Err(e),
    }
}

/// What parsing one expression at the given binding power yields.  The
/// leading prefix form is parsed first, then infix operators bind as long as
/// their power exceeds `prec`.  Mirrors the executable `parse_expression`.
pub open spec fn parse_expr_spec(ts: Seq<TokenView>, prec: u8) -> Result<
    (ExprView, Seq<TokenView>),
    ParseError,
>
    decreases ts.len(), 2int,
{
    match parse_left_spec(ts) {
        Ok((left, r)) => if r.len() < ts.len() {
            parse_infix_chain(left, r, prec)
        } else {
            Err(ParseError::UnexpectedEnd)
        },
        Err(e) => Err(e),
    }
}

/// What parsing the leading prefix form of an expression yields: a literal,
/// an identifier or call, a grouped expression, a conditional, a prefix
/// operator application, or a function literal.
pub open spec fn parse_left_spec(ts: Seq<TokenView>) -> Result<
    (ExprView, Seq<TokenView>),
    ParseError,
>
    decreases ts.len(), 1int,
{
    if ts.len() == 0 {
        Err(ParseError::UnexpectedEnd)
    } else {
        let rest = ts.subrange(1, ts.len() as int);
        match ts[0] {
            TokenView::INT(v) => Ok((ExprView::Int(v), rest)),
            TokenView::TRUE => Ok((ExprView::Boolean(true), rest)),
            TokenView::FALSE => Ok((ExprView::Boolean(false), rest)),
            TokenView::STRING(v) => Ok((ExprView::String(v), rest)),
            TokenView::IDENT(name) => parse_ident_spec(name, rest),
            TokenView::LPAREN => parse_grouped_spec(rest),
            TokenView::IF => parse_if_spec(rest),
            TokenView::MINUS => parse_prefix_spec(Prefix::MINUS, rest),
            TokenView::BANG => parse_prefix_spec(Prefix::BANG, rest),
            TokenView::FN => parse_fn_spec(rest),
            _ => Err(ParseError::UnexpectedToken),
        }
    }
}

/// What parsing an identifier or, when an opening parenthesis follows, a
/// call of the named function yields.
pub open spec fn parse_ident_spec(name: Seq<char>, rest: Seq<TokenView>) -> Result<
    (ExprView, Seq<TokenView>),
    ParseError,
>
    decreases rest.len(), 4int,
{
    if rest.len() == 0 {
        Err(ParseError::UnexpectedEnd)
    } else if rest[0] is LPAREN {
        match parse_args_spec(rest.subrange(1, rest.len() as int)) {
            Ok((args, r2)) => Ok(
                (ExprView::FnCall { function: Box::new(ExprView::Ident(name)), args }, r2),
            ),
            Err(e) => Err(e),
        }
    } else {
        Ok((ExprView::Ident(name), rest))
    }
}

/// What parsing a parenthesised expression (after its opening parenthesis)
/// yields.
pub open spec fn parse_grouped_spec(rest: Seq<TokenView>) -> Result<
    (ExprView, Seq<TokenView>),
    ParseError,
>
    decreases rest.len(), 3int,
{
    match parse_expr_spec(rest, LOWEST) {
        Ok((e, r2)) => if r2.len() == 0 {
            Err(ParseError::ExpectedRParen)
        } else if !(r2[0] is RPAREN) {
            Err(ParseError::ExpectedRParen)
        } else {
            Ok((e, r2.subrange(1, r2.len() as int)))
        },
        Err(e) => Err(e),
    }
}

/// What parsing a prefix operator's operand (after the operator) yields.
pub open spec fn parse_prefix_spec(prefix: Prefix, rest: Seq<TokenView>) -> Result<
    (ExprView, Seq<TokenView>),
    ParseError,
>
    decreases rest.len(), 3int,
{
    match parse_expr_spec(rest, PREFIX) {
        Ok((v, r2)) => Ok((ExprView::Prefix { prefix, value: Box::new(v) }, r2)),
        Err(e) => Err(e),
    }
}

/// What parsing a conditional (after its `if` keyword) yields.
pub open spec fn parse_if_spec(ts: Seq<TokenView>) -> Result<
    (ExprView, Seq<TokenView>),
    ParseError,
>
    decreases ts.len(), 3int,
{
    if ts.len() == 0 {
        Err(ParseError::UnexpectedEnd)
    } else if !(ts[0] is LPAREN) {
        Err(ParseError::ExpectedLParen)
    } else {
        match parse_expr_spec(ts.subrange(1, ts.len() as int), LOWEST) {
            Ok((cond, r1)) => if r1.len() == 0 {
                Err(ParseError::UnexpectedEnd)
            } else if !(r1[0] is RPAREN) {
                Err(ParseError::ExpectedRParen)
            } else {
                let r2 = r1.subrange(1, r1.len() as int);
                if r2.len() == 0 {
                    Err(ParseError::UnexpectedEnd)
                } else if !(r2[0] is LBRACE) {
                    Err(ParseError::ExpectedLBrace)
                } else if r2.len() < ts.len() {
                    match parse_spec(r2.subrange(1, r2.len() as int)) {
                        Ok((conseq, r3)) => if r3.len() == 0 {
                            Err(ParseError::UnexpectedEnd)
                        } else if !(r3[0] is RBRACE) {
                            Err(ParseError::ExpectedRBrace)
                        } else {
                            let r4 = r3.subrange(1, r3.len() as int);
                            if r4.len() == 0 {
                                Err(ParseError::UnexpectedEnd)
                            } else if r4[0] is ELSE {
                                let r5 = r4.subrange(1, r4.len() as int);
                                if r5.len() == 0 {
                                    Err(ParseError::UnexpectedEnd)
                                } else if !(r5[0] is LBRACE) {
                                    Err(ParseError::ExpectedLBrace)
                                } else if r5.len() < ts.len() {
                                    match parse_spec(r5.subrange(1, r5.len() as int)) {
                                        Ok((alt, r6)) => if r6.len() == 0 {
                                            Err(ParseError::UnexpectedEnd)
                                        } else if !(r6[0] is RBRACE) {
                                            Err(ParseError::ExpectedRBrace)
                                        } else {
                                            Ok(
                                                (
                                                    ExprView::If {
                                                        condition: Box::new(cond),
                                                        consequence: conseq,
                                                        alternative: alt,
                                                    },
                                                    r6.subrange(1, r6.len() as int),
                                                ),
                                            )
                                        },
                                        Err(e) => Err(e),
                                    }
                                } else {
                                    Err(ParseError::UnexpectedEnd)
                                }
                            } else {
                                Ok(
                                    (
                                        ExprView::If {
                                            condition: Box::new(cond),
                                            consequence: conseq,
                                            alternative: Seq::empty(),
                                        },
                                        r4,
                                    ),
                                )
                            }
                        },
                        Err(e) => Err(e),
                    }
                } else {
                    Err(ParseError::UnexpectedEnd)
                }
            },
            Err(e) => Err(e),
        }
    }
}

/// What parsing a function literal (after its `fn` keyword) yields.
pub open spec fn parse_fn_spec(ts: Seq<TokenView>) -> Result<
    (ExprView, Seq<TokenView>),
    ParseError,
>
    decreases ts.len(), 3int,
{
    if ts.len() == 0 {
        Err(ParseError::UnexpectedEnd)
    } else if !(ts[0] is LPAREN) {
        Err(ParseError::ExpectedLParen)
    } else {
        match parse_params_spec(ts.subrange(1, ts.len() as int)) {
            Ok((params, r2)) => if r2.len() == 0 {
                Err(ParseError::UnexpectedEnd)
            } else if !(r2[0] is LBRACE) {
                Err(ParseError::ExpectedLBrace)
            } else if r2.len() < ts.len() {
                match parse_spec(r2.subrange(1, r2.len() as int)) {
                    Ok((body, r3)) => if r3.len() == 0 {
                        Err(ParseError::UnexpectedEnd)
                    } else if !(r3[0] is RBRACE) {
                        Err(ParseError::ExpectedRBrace)
                    } else {
                        Ok(
                            (
                                ExprView::FnLiteral { parameters: params, body },
                                r3.subrange(1, r3.len() as int),
                            ),
                        )
                    },
                    Err(e) => Err(e),
                }
            } else {
                Err(ParseError::UnexpectedEnd)
            },
            Err(e) => Err(e),
        }
    }
}

/// What folding infix operators onto `left` yields, as long as the next
/// token binds tighter than `prec`.
pub open spec fn parse_infix_chain(left: ExprView, ts: Seq<TokenView>, prec: u8) -> Result<
    (ExprView, Seq<TokenView>),
    ParseError,
>
    decreases ts.len(), 2int,
{
    if ts.len() == 0 {
        Err(ParseError::UnexpectedEnd)
    } else if prec < token_precedence(ts[0]) {
        match parse_infix_spec(left, ts) {
            Ok((e2, r2)) => if r2.len() < ts.len() {
                parse_infix_chain(e2, r2, prec)
            } else {
                Err(ParseError::UnexpectedEnd)
            },
            Err(e) => Err(e),
        }
    } else {
        Ok((left, ts))
    }
}

/// What parsing one infix application onto `left` yields: the operator at
/// the head of the tokens applied to `left` and the expression after it.
/// Mirrors the executable `parse_infix`.
pub open spec fn parse_infix_spec(left: ExprView, ts: Seq<TokenView>) -> Result<
    (ExprView, Seq<TokenView>),
    ParseError,
>
    decreases ts.len(), 1int,
{
    if ts.len() == 0 {
        Err(ParseError::UnexpectedEnd)
    } else {
        let op: Option<Operator> = match ts[0] {
            TokenView::MINUS => Some(Operator::MINUS),
            TokenView::PLUS => Some(Operator::PLUS),
            TokenView::ASTERISK => Some(Operator::MULTIPLY),
            TokenView::SLASH => Some(Operator::DIVIDE),
            TokenView::EQ => Some(Operator::EQUAL),
            TokenView::NEQ => Some(Operator::NEQUAL),
            TokenView::GT => Some(Operator::GREATER),
            TokenView::LT => Some(Operator::LESS),
            _ => None,
        };
        match op {
            Some(op) => match parse_expr_spec(
                ts.subrange(1, ts.len() as int),
                token_precedence(ts[0]),
            ) {
                Ok((right, r)) => Ok(
                    (
                        ExprView::Infix { left: Box::new(left), op, right: Box::new(right) },
                        r,
                    ),
                ),
                Err(e) => Err(e),
            },
            None => Err(ParseError::UnexpectedToken),
        }
    }
}

/// What parsing a call's argument list (after its opening parenthesis)
/// yields.  A closing parenthesis that directly follows a comma, or an empty
/// argument list's closing parenthesis, is left unconsumed, as the
/// executable parser leaves it.
pub open spec fn parse_args_spec(ts: Seq<TokenView>) -> Result<
    (Seq<ExprView>, Seq<TokenView>),
    ParseError,
>
    decreases ts.len(), 3int,
{
    if ts.len() == 0 {
        Err(ParseError::UnexpectedEnd)
    } else if ts[0] is RPAREN {
        Ok((Seq::empty(), ts))
    } else {
        match parse_expr_spec(ts, LOWEST) {
            Ok((arg, r1)) => if r1.len() == 0 {
                Err(ParseError::UnexpectedEnd)
            } else {
                match r1[0] {
                    TokenView::RPAREN => Ok((seq![arg], r1.subrange(1, r1.len() as int))),
                    TokenView::COMMA => if r1.len() < ts.len() {
                        match parse_args_spec(r1.subrange(1, r1.len() as int)) {
                            Ok((more, r2)) => Ok((seq![arg] + more, r2)),
                            Err(e) => Err(e),
                        }
                    } else {
                        Err(ParseError::UnexpectedEnd)
                    },
                    _ => Err(ParseError::UnexpectedToken),
                }
            },
            Err(e) => Err(e),
        }
    }
}

/// What parsing a function literal's parameter list (after its opening
/// parenthesis) yields, including its closing parenthesis.
pub open spec fn parse_params_spec(ts: Seq<TokenView>) -> Result<
    (Seq<Seq<char>>, Seq<TokenView>),
    ParseError,
>
    decreases ts.len(),
{
    if ts.len() == 0 {
        Err(ParseError::UnexpectedEnd)
    } else {
        match ts[0] {
            TokenView::IDENT(v) => if ts.len() < 2 {
                Err(ParseError::UnexpectedEnd)
            } else {
                match ts[1] {
                    TokenView::COMMA => match parse_params_spec(ts.subrange(2, ts.len() as int)) {
                        Ok((more, r)) => Ok((seq![v] + more, r)),
                        Err(e) => Err(e),
                    },
                    TokenView::RPAREN => Ok((seq![v], ts.subrange(2, ts.len() as int))),
                    _ => Err(ParseError::UnexpectedToken),
                }
            },
            TokenView::RPAREN => Ok((Seq::empty(), ts.subrange(1, ts.len() as int))),
            _ => Err(ParseError::UnexpectedToken),
        }
    }
}

/// Taking the views of a statement sequence commutes with appending one.
pub proof fn lemma_stmts_view_push(v: Seq<Statement>, s: Statement)
    ensures
        stmts_view(v.push(s)) == stmts_view(v).push(stmt_view(s)),
    decreases v.len(),
{
    if v.len() == 0 {
        assert(v.push(s).subrange(1, v.push(s).len() as int) =~= Seq::<Statement>::empty());
        assert(stmts_view(Seq::<Statement>::empty()) =~= Seq::<StmtView>::empty());
        assert(stmts_view(v) =~= Seq::<StmtView>::empty());
        assert(stmts_view(v.push(s)) =~= stmts_view(v).push(stmt_view(s)));
    } else {
        let w = v.push(s);
        assert(w.subrange(1, w.len() as int) =~= v.subrange(1, v.len() as int).push(s));
        lemma_stmts_view_push(v.subrange(1, v.len() as int), s);
        assert(stmts_view(w) == seq![stmt_view(w[0])] + stmts_view(w.subrange(1, w.len() as int)));
        assert(stmts_view(v) == seq![stmt_view(v[0])] + stmts_view(v.subrange(1, v.len() as int)));
        assert(w[0] == v[0]);
        assert(seq![stmt_view(v[0])] + stmts_view(v.subrange(1, v.len() as int)).push(stmt_view(s))
            =~= stmts_view(v).push(stmt_view(s)));
        assert(stmts_view(v.push(s)) =~= stmts_view(v).push(stmt_view(s)));
    }
}

/// Taking the views of an expression sequence commutes with appending one.
pub proof fn lemma_exprs_view_push(v: Seq<Expression>, e: Expression)
    ensures
        exprs_view(v.push(e)) == exprs_view(v).push(expr_view(e)),
    decreases v.len(),
{
    if v.len() == 0 {
        assert(v.push(e).subrange(1, v.push(e).len() as int) =~= Seq::<Expression>::empty());
        assert(exprs_view(Seq::<Expression>::empty()) =~= Seq::<ExprView>::empty());
        assert(exprs_view(v) =~= Seq::<ExprView>::empty());
        assert(exprs_view(v.push(e)) =~= exprs_view(v).push(expr_view(e)));
    } else {
        let w = v.push(e);
        assert(w.subrange(1, w.len() as int) =~= v.subrange(1, v.len() as int).push(e));
        lemma_exprs_view_push(v.subrange(1, v.len() as int), e);
        assert(exprs_view(w) == seq![expr_view(w[0])] + exprs_view(w.subrange(1, w.len() as int)));
        assert(exprs_view(v) == seq![expr_view(v[0])] + exprs_view(v.subrange(1, v.len() as int)));
        assert(w[0] == v[0]);
        assert(seq![expr_view(v[0])] + exprs_view(v.subrange(1, v.len() as int)).push(expr_view(e))
            =~= exprs_view(v).push(expr_view(e)));
        assert(exprs_view(v.push(e)) =~= exprs_view(v).push(expr_view(e)));
    }
}

/// A statement sequence and its views have the same length.
pub proof fn lemma_stmts_view_len(v: Seq<Statement>)
    ensures
        stmts_view(v).len() == v.len(),
    decreases v.len(),
{
    if v.len() > 0 {
        lemma_stmts_view_len(v.subrange(1, v.len() as int));
    }
}

/// The views of a statement sequence, past its head, are the views of its
/// tail.
pub proof fn lemma_stmts_view_tail(v: Seq<Statement>)
    requires
        v.len() > 0,
    ensures
        stmts_view(v.subrange(1, v.len() as int)) == stmts_view(v).subrange(
            1,
            stmts_view(v).len() as int,
        ),
    decreases v.len(),
{
    lemma_stmts_view_len(v);
    lemma_stmts_view_len(v.subrange(1, v.len() as int));
    assert(stmts_view(v) == seq![stmt_view(v[0])] + stmts_view(v.subrange(1, v.len() as int)));
    assert(stmts_view(v).subrange(1, stmts_view(v).len() as int) =~= stmts_view(
        v.subrange(1, v.len() as int),
    ));
}

/// An expression sequence and its views have the same length.
pub proof fn lemma_exprs_view_len(v: Seq<Expression>)
    ensures
        exprs_view(v).len() == v.len(),
    decreases v.len(),
{
    if v.len() > 0 {
        lemma_exprs_view_len(v.subrange(1, v.len() as int));
    }
}

/// The views of an expression sequence, past its head, are the views of its
/// tail.
pub proof fn lemma_exprs_view_tail(v: Seq<Expression>)
    requires
        v.len() > 0,
    ensures
        exprs_view(v.subrange(1, v.len() as int)) == exprs_view(v).subrange(
            1,
            exprs_view(v).len() as int,
        ),
    decreases v.len(),
{
    lemma_exprs_view_len(v);
    lemma_exprs_view_len(v.subrange(1, v.len() as int));
    assert(exprs_view(v) == seq![expr_view(v[0])] + exprs_view(v.subrange(1, v.len() as int)));
    assert(exprs_view(v).subrange(1, exprs_view(v).len() as int) =~= exprs_view(
        v.subrange(1, v.len() as int),
    ));
}

/// Whether an executable statement result and remaining tokens agree with a
/// specification-level parse result.
pub open spec fn stmt_result_matches(
    sp: Result<(StmtView, Seq<TokenView>), ParseError>,
    r: Result<Statement, ParseError>,
    rest: Seq<TokenView>,
) -> bool {
    match (sp, r) {
        (Ok(p), Ok(st)) => stmt_view(st) == p.0 && rest == p.1,
        (Err(a), Err(b)) => a == b,
        _ => false,
    }
}

/// Whether an executable expression result and remaining tokens agree with
/// a specification-level parse result.
pub open spec fn expr_result_matches(
    sp: Result<(ExprView, Seq<TokenView>), ParseError>,
    r: Result<Expression, ParseError>,
    rest: Seq<TokenView>,
) -> bool {
    match (sp, r) {
        (Ok(p), Ok(e)) => expr_view(e) == p.0 && rest == p.1,
        (Err(a), Err(b)) => a == b,
        _ => false,
    }
}

/// Whether an executable statement-list result and remaining tokens agree
/// with a specification-level parse result.
pub open spec fn parse_result_matches(
    sp: Result<(Seq<StmtView>, Seq<TokenView>), ParseError>,
    r: Result<Vec<Statement>, ParseError>,
    rest: Seq<TokenView>,
) -> bool {
    match (sp, r) {
        (Ok(p), Ok(stmts)) => stmts_view(stmts@) == p.0 && rest == p.1,
        (Err(a), Err(b)) => a == b,
        _ => false,
    }
}

/// Parse a statement list until the end of the input or a closing brace,
/// leaving that closing token unconsumed.
#[verifier::rlimit(60)]
pub fn parse(tokens: &mut VecDeque<Token>) -> (r: Result<Vec<Statement>, ParseError>)
    ensures
        parse_result_matches(
            parse_spec(toks_view(old(tokens)@)),
            r,
            toks_view(final(tokens)@),
        ),
        final(tokens)@.len() <= old(tokens)@.len(),
    decreases tokens@.len(), 4int,
{
    let ghost ts0 = toks_view(tokens@);
    let mut statements: Vec<Statement> = Vec::new();
    proof {
        assert(stmts_view(statements@) =~= Seq::<StmtView>::empty());
    }
    loop
        invariant
            toks_view(tokens@).len() <= ts0.len(),
            tokens@.len() == toks_view(tokens@).len(),
            ts0 == toks_view(old(tokens)@),
            match parse_spec(toks_view(tokens@)) {
                Ok(sp) => parse_spec(ts0) == Ok::<(Seq<StmtView>, Seq<TokenView>), ParseError>(
                    (stmts_view(statements@) + sp.0, sp.1),
                ),
                Err(e) => parse_spec(ts0) == Err::<(Seq<StmtView>, Seq<TokenView>), ParseError>(e),
            },
        ensures
            tokens@.len() > 0,
            tokens@[0]@ is EOF || tokens@[0]@ is RBRACE,
            toks_view(tokens@).len() <= ts0.len(),
            match parse_spec(toks_view(tokens@)) {
                Ok(sp) => parse_spec(ts0) == Ok::<(Seq<StmtView>, Seq<TokenView>), ParseError>(
                    (stmts_view(statements@) + sp.0, sp.1),
                ),
                Err(e) => parse_spec(ts0) == Err::<(Seq<StmtView>, Seq<TokenView>), ParseError>(e),
            },
        decreases tokens@.len(), 3int,
    {
        let ghost cur0 = toks_view(tokens@);
        let ghost stmts0 = statements@;
        if tokens.len() == 0 {
            return Err(ParseError::UnexpectedEnd);
        }
        let is_eof_or_rbrace = match &tokens[0] {
            Token::EOF => true,
            Token::RBRACE => true,
            _ => false,
        };
        if is_eof_or_rbrace {
            break ;
        }
        let is_let = match &tokens[0] {
            Token::LET => true,
            _ => false,
        };
        let is_return = match &tokens[0] {
            Token::RETURN => true,
            _ => false,
        };
        if is_let {
            tokens.pop_front();
            proof {
                assert(toks_view(tokens@) =~= cur0.subrange(1, cur0.len() as int));
            }
            let statement = match parse_let(tokens) {
                Ok(st) => st,
                Err(e) => {
                    return Err(e);
                },
            };
            if tokens.len() == 0 {
                return Err(ParseError::UnexpectedEnd);
            }
            let ghost before_semi = toks_view(tokens@);
            let is_semi = match tokens.pop_front().unwrap() {
                Token::SEMICOLON => true,
                _ => false,
            };
            proof {
                assert(toks_view(tokens@) =~= before_semi.subrange(1, before_semi.len() as int));
            }
            if !is_semi {
                return Err(ParseError::ExpectedSemicolon);
            }
            statements.push(statement);
            proof {
                lemma_stmts_view_push(stmts0, statement);
                match parse_spec(toks_view(tokens@)) {
                    Ok(sp) => {
                        assert(stmts_view(statements@) + sp.0 =~= stmts0_combined(
                            stmts0,
                            statement,
                            sp.0,
                        ));
                    },
                    Err(e) => {},
                }
            }
        } else if is_return {
            tokens.pop_front();
            proof {
                assert(toks_view(tokens@) =~= cur0.subrange(1, cur0.len() as int));
            }
            let statement = match parse_return(tokens) {
                Ok(st) => st,
                Err(e) => {
                    return Err(e);
                },
            };
            if tokens.len() == 0 {
                return Err(ParseError::UnexpectedEnd);
            }
            let ghost before_semi = toks_view(tokens@);
            let is_semi = match tokens.pop_front().unwrap() {
                Token::SEMICOLON => true,
                _ => false,
            };
            proof {
                assert(toks_view(tokens@) =~= before_semi.subrange(1, before_semi.len() as int));
            }
            if !is_semi {
                return Err(ParseError::ExpectedSemicolon);
            }
            statements.push(statement);
            proof {
                lemma_stmts_view_push(stmts0, statement);
                match parse_spec(toks_view(tokens@)) {
                    Ok(sp) => {
                        assert(stmts_view(statements@) + sp.0 =~= stmts0_combined(
                            stmts0,
                            statement,
                            sp.0,
                        ));
                    },
                    Err(e) => {},
                }
            }
        } else {
            let exp = match parse_expression(tokens, LOWEST) {
                Ok(e) => e,
                Err(e) => {
                    return Err(e);
                },
            };
            let at_semi = tokens.len() > 0 && (match &tokens[0] {
                Token::SEMICOLON => true,
                _ => false,
            });
            if at_semi {
                let ghost before_semi = toks_view(tokens@);
                tokens.pop_front();
                proof {
                    assert(toks_view(tokens@) =~= before_semi.subrange(
                        1,
                        before_semi.len() as int,
                    ));
                }
            }
            statements.push(Statement::ExpressionStatement(exp));
            proof {
                lemma_stmts_view_push(stmts0, Statement::ExpressionStatement(exp));
                match parse_spec(toks_view(tokens@)) {
                    Ok(sp) => {
                        assert(stmts_view(statements@) + sp.0 =~= stmts0_combined(
                            stmts0,
                            Statement::ExpressionStatement(exp),
                            sp.0,
                        ));
                    },
                    Err(e) => {},
                }
            }
        }
    }
    proof {
        assert(stmts_view(statements@) + Seq::<StmtView>::empty() =~= stmts_view(statements@));
    }
    Ok(statements)
}

/// The statements gathered so far, one more, and the rest, in order.
pub open spec fn stmts0_combined(
    done: Seq<Statement>,
    st: Statement,
    rest: Seq<StmtView>,
) -> Seq<StmtView> {
    stmts_view(done) + (seq![stmt_view(st)] + rest)
}

/// Parse a let statement, after its `let` keyword has been consumed.
pub fn parse_let(tokens: &mut VecDeque<Token>) -> (r: Result<Statement, ParseError>)
    ensures
        stmt_result_matches(
            parse_let_spec(toks_view(old(tokens)@)),
            r,
            toks_view(final(tokens)@),
        ),
        r is Ok ==> final(tokens)@.len() < old(tokens)@.len(),
        final(tokens)@.len() <= old(tokens)@.len(),
    decreases tokens@.len(), 3int,
{
    let ghost ts0 = toks_view(tokens@);
    if tokens.len() == 0 {
        return Err(ParseError::ExpectedIdent);
    }
    let name = match tokens.pop_front().unwrap() {
        Token::IDENT(name) => name,
        _ => {
            return Err(ParseError::ExpectedIdent);
        },
    };
    proof {
        assert(toks_view(tokens@) =~= ts0.subrange(1, ts0.len() as int));
    }
    if tokens.len() == 0 {
        return Err(ParseError::ExpectedAssign);
    }
    let ghost ts1 = toks_view(tokens@);
    let is_assign = match tokens.pop_front().unwrap() {
        Token::ASSIGN => true,
        _ => false,
    };
    proof {
        assert(toks_view(tokens@) =~= ts1.subrange(1, ts1.len() as int));
        assert(toks_view(tokens@) =~= ts0.subrange(2, ts0.len() as int));
    }
    if !is_assign {
        return Err(ParseError::ExpectedAssign);
    }
    let value = match parse_expression(tokens, LOWEST) {
        Ok(v) => v,
        Err(e) => {
            return Err(e);
        },
    };
    Ok(Statement::Let { name, value })
}

/// Parse a return statement, after its `return` keyword has been consumed.
pub fn parse_return(tokens: &mut VecDeque<Token>) -> (r: Result<Statement, ParseError>)
    ensures
        stmt_result_matches(
            parse_return_spec(toks_view(old(tokens)@)),
            r,
            toks_view(final(tokens)@),
        ),
        r is Ok ==> final(tokens)@.len() < old(tokens)@.len(),
        final(tokens)@.len() <= old(tokens)@.len(),
    decreases tokens@.len(), 3int,
{
    let value = match parse_expression(tokens, LOWEST) {
        Ok(v) => v,
        Err(e) => {
            return Err(e);
        },
    };
    Ok(Statement::Return { value })
}

/// Parse one infix application onto `left`: the operator at the head of the
/// tokens, then the right operand at that operator's binding power.
pub fn parse_infix(tokens: &mut VecDeque<Token>, left: Expression) -> (r: Result<
    Expression,
    ParseError,
>)
    ensures
        expr_result_matches(
            parse_infix_spec(expr_view(left), toks_view(old(tokens)@)),
            r,
            toks_view(final(tokens)@),
        ),
        r is Ok ==> final(tokens)@.len() < old(tokens)@.len(),
        final(tokens)@.len() <= old(tokens)@.len(),
    decreases tokens@.len(), 1int,
{
    let ghost ts0 = toks_view(tokens@);
    if tokens.len() == 0 {
        return Err(ParseError::UnexpectedEnd);
    }
    let tok = tokens.pop_front().unwrap();
    proof {
        assert(toks_view(tokens@) =~= ts0.subrange(1, ts0.len() as int));
    }
    let (op, precedence): (Operator, u8) = match tok {
        Token::MINUS => (Operator::MINUS, SUM),
        Token::PLUS => (Operator::PLUS, SUM),
        Token::ASTERISK => (Operator::MULTIPLY, PRODUCT),
        Token::SLASH => (Operator::DIVIDE, PRODUCT),
        Token::EQ => (Operator::EQUAL, EQUALS),
        Token::NEQ => (Operator::NEQUAL, EQUALS),
        Token::GT => (Operator::GREATER, LESSGREATER),
        Token::LT => (Operator::LESS, LESSGREATER),
        _ => {
            return Err(ParseError::UnexpectedToken);
        },
    };
    let right_exp = match parse_expression(tokens, precedence) {
        Ok(v) => v,
        Err(e) => {
            return Err(e);
        },
    };
    Ok(Expression::Infix { left: Box::new(left), op, right: Box::new(right_exp) })
}

/// Parse a call's argument list, after the opening parenthesis has been
/// consumed.  An empty list's closing parenthesis, or one directly after a
/// comma, is left unconsumed.
fn parse_call_args(tokens: &mut VecDeque<Token>) -> (r: Result<Vec<Expression>, ParseError>)
    ensures
        ({
            let sp = parse_args_spec(toks_view(old(tokens)@));
            match (sp, r) {
                (Ok(p), Ok(args)) => exprs_view(args@) == p.0 && toks_view(final(tokens)@) == p.1,
                (Err(a), Err(b)) => a == b,
                _ => false,
            }
        }),
        final(tokens)@.len() <= old(tokens)@.len(),
    decreases tokens@.len(), 3int,
{
    let ghost args_ts0 = toks_view(tokens@);
    let mut args: Vec<Expression> = Vec::new();
    proof {
        assert(exprs_view(args@) =~= Seq::<ExprView>::empty());
    }
    loop
        invariant_except_break
            match parse_args_spec(toks_view(tokens@)) {
                Ok(sp) => parse_args_spec(args_ts0) == Ok::<
                    (Seq<ExprView>, Seq<TokenView>),
                    ParseError,
                >((exprs_view(args@) + sp.0, sp.1)),
                Err(e) => parse_args_spec(args_ts0) == Err::<
                    (Seq<ExprView>, Seq<TokenView>),
                    ParseError,
                >(e),
            },
        invariant
            toks_view(tokens@).len() <= args_ts0.len(),
            tokens@.len() == toks_view(tokens@).len(),
            args_ts0 == toks_view(old(tokens)@),
        ensures
            parse_args_spec(args_ts0) == Ok::<(Seq<ExprView>, Seq<TokenView>), ParseError>(
                (exprs_view(args@), toks_view(tokens@)),
            ),
            toks_view(tokens@).len() <= args_ts0.len(),
        decreases tokens@.len(), 3int,
    {
        let ghost cur0 = toks_view(tokens@);
        let ghost args0 = args@;
        if tokens.len() == 0 {
            return Err(ParseError::UnexpectedEnd);
        }
        let at_rparen = match &tokens[0] {
            Token::RPAREN => true,
            _ => false,
        };
        if at_rparen {
            proof {
                assert(exprs_view(args@) + Seq::<ExprView>::empty() =~= exprs_view(args@));
            }
            break ;
        }
        let arg = match parse_expression(tokens, LOWEST) {
            Ok(a) => a,
            Err(e) => {
                return Err(e);
            },
        };
        args.push(arg);
        proof {
            lemma_exprs_view_push(args0, arg);
        }
        if tokens.len() == 0 {
            return Err(ParseError::UnexpectedEnd);
        }
        let ghost before_sep = toks_view(tokens@);
        let sep = tokens.pop_front().unwrap();
        proof {
            assert(toks_view(tokens@) =~= before_sep.subrange(1, before_sep.len() as int));
        }
        match sep {
            Token::RPAREN => {
                proof {
                    assert(exprs_view(args0) + seq![expr_view(arg)] =~= exprs_view(args@));
                }
                break ;
            },
            Token::COMMA => {
                proof {
                    match parse_args_spec(toks_view(tokens@)) {
                        Ok(sp) => {
                            assert(exprs_view(args@) + sp.0 =~= exprs_view(args0) + (seq![
                                expr_view(arg),
                            ] + sp.0));
                        },
                        Err(e) => {},
                    }
                }
            },
            _ => {
                return Err(ParseError::UnexpectedToken);
            },
        }
    }
    Ok(args)
}

/// Parse a function literal's parameter list, after the opening parenthesis
/// has been consumed, including the closing parenthesis.
fn parse_fn_params(tokens: &mut VecDeque<Token>) -> (r: Result<Vec<String>, ParseError>)
    ensures
        ({
            let sp = parse_params_spec(toks_view(old(tokens)@));
            match (sp, r) {
                (Ok(p), Ok(params)) => strings_view(params@) == p.0 && toks_view(final(tokens)@)
                    == p.1,
                (Err(a), Err(b)) => a == b,
                _ => false,
            }
        }),
        final(tokens)@.len() <= old(tokens)@.len(),
    decreases tokens@.len(), 0int,
{
    let ghost params_ts0 = toks_view(tokens@);
    let mut parameters: Vec<String> = Vec::new();
    proof {
        assert(strings_view(parameters@) =~= Seq::<Seq<char>>::empty());
    }
    loop
        invariant_except_break
            match parse_params_spec(toks_view(tokens@)) {
                Ok(sp) => parse_params_spec(params_ts0) == Ok::<
                    (Seq<Seq<char>>, Seq<TokenView>),
                    ParseError,
                >((strings_view(parameters@) + sp.0, sp.1)),
                Err(e) => parse_params_spec(params_ts0) == Err::<
                    (Seq<Seq<char>>, Seq<TokenView>),
                    ParseError,
                >(e),
            },
        invariant
            toks_view(tokens@).len() <= params_ts0.len(),
            tokens@.len() == toks_view(tokens@).len(),
            params_ts0 == toks_view(old(tokens)@),
        ensures
            parse_params_spec(params_ts0) == Ok::<(Seq<Seq<char>>, Seq<TokenView>), ParseError>(
                (strings_view(parameters@), toks_view(tokens@)),
            ),
            toks_view(tokens@).len() <= params_ts0.len(),
        decreases tokens@.len(),
    {
        let ghost cur0 = toks_view(tokens@);
        let ghost params0 = parameters@;
        if tokens.len() == 0 {
            return Err(ParseError::UnexpectedEnd);
        }
        let t1 = tokens.pop_front().unwrap();
        proof {
            assert(toks_view(tokens@) =~= cur0.subrange(1, cur0.len() as int));
        }
        match t1 {
            Token::IDENT(val) => {
                if tokens.len() == 0 {
                    return Err(ParseError::UnexpectedEnd);
                }
                let ghost mid0 = toks_view(tokens@);
                let t2 = tokens.pop_front().unwrap();
                proof {
                    assert(toks_view(tokens@) =~= mid0.subrange(1, mid0.len() as int));
                    assert(toks_view(tokens@) =~= cur0.subrange(2, cur0.len() as int));
                }
                match t2 {
                    Token::COMMA => {
                        parameters.push(val);
                        proof {
                            assert(strings_view(parameters@) =~= strings_view(params0).push(val@));
                            match parse_params_spec(toks_view(tokens@)) {
                                Ok(sp) => {
                                    assert(strings_view(parameters@) + sp.0 =~= strings_view(
                                        params0,
                                    ) + (seq![val@] + sp.0));
                                },
                                Err(e) => {},
                            }
                        }
                    },
                    Token::RPAREN => {
                        parameters.push(val);
                        proof {
                            assert(strings_view(parameters@) =~= strings_view(params0).push(val@));
                            assert(strings_view(params0) + seq![val@] =~= strings_view(
                                parameters@,
                            ));
                        }
                        break ;
                    },
                    _ => {
                        return Err(ParseError::UnexpectedToken);
                    },
                }
            },
            Token::RPAREN => {
                proof {
                    assert(strings_view(parameters@) + Seq::<Seq<char>>::empty() =~= strings_view(
                        parameters@,
                    ));
                }
                break ;
            },
            _ => {
                return Err(ParseError::UnexpectedToken);
            },
        }
    }
    Ok(parameters)
}

/// Parse a conditional, after its `if` keyword has been consumed.
fn parse_if(tokens: &mut VecDeque<Token>) -> (r: Result<Expression, ParseError>)
    ensures
        expr_result_matches(
            parse_if_spec(toks_view(old(tokens)@)),
            r,
            toks_view(final(tokens)@),
        ),
        final(tokens)@.len() <= old(tokens)@.len(),
    decreases tokens@.len(), 3int,
{
    let ghost ts0 = toks_view(tokens@);
    if tokens.len() == 0 {
        return Err(ParseError::UnexpectedEnd);
    }
    let is_lparen = match tokens.pop_front().unwrap() {
        Token::LPAREN => true,
        _ => false,
    };
    proof {
        assert(toks_view(tokens@) =~= ts0.subrange(1, ts0.len() as int));
    }
    if !is_lparen {
        return Err(ParseError::ExpectedLParen);
    }
    let condition = match parse_expression(tokens, LOWEST) {
        Ok(c) => c,
        Err(e) => {
            return Err(e);
        },
    };
    if tokens.len() == 0 {
        return Err(ParseError::UnexpectedEnd);
    }
    let ghost before_rp = toks_view(tokens@);
    let is_rparen = match tokens.pop_front().unwrap() {
        Token::RPAREN => true,
        _ => false,
    };
    proof {
        assert(toks_view(tokens@) =~= before_rp.subrange(1, before_rp.len() as int));
    }
    if !is_rparen {
        return Err(ParseError::ExpectedRParen);
    }
    if tokens.len() == 0 {
        return Err(ParseError::UnexpectedEnd);
    }
    let ghost before_lb = toks_view(tokens@);
    let is_lbrace = match tokens.pop_front().unwrap() {
        Token::LBRACE => true,
        _ => false,
    };
    proof {
        assert(toks_view(tokens@) =~= before_lb.subrange(1, before_lb.len() as int));
    }
    if !is_lbrace {
        return Err(ParseError::ExpectedLBrace);
    }
    let consequence = match parse(tokens) {
        Ok(c) => c,
        Err(e) => {
            return Err(e);
        },
    };
    if tokens.len() == 0 {
        return Err(ParseError::UnexpectedEnd);
    }
    let ghost before_rb = toks_view(tokens@);
    let is_rbrace = match tokens.pop_front().unwrap() {
        Token::RBRACE => true,
        _ => false,
    };
    proof {
        assert(toks_view(tokens@) =~= before_rb.subrange(1, before_rb.len() as int));
    }
    if !is_rbrace {
        return Err(ParseError::ExpectedRBrace);
    }
    if tokens.len() == 0 {
        return Err(ParseError::UnexpectedEnd);
    }
    let has_else = match &tokens[0] {
        Token::ELSE => true,
        _ => false,
    };
    let alternative: Vec<Statement> = if has_else {
        let ghost before_else = toks_view(tokens@);
        tokens.pop_front();
        proof {
            assert(toks_view(tokens@) =~= before_else.subrange(1, before_else.len() as int));
        }
        if tokens.len() == 0 {
            return Err(ParseError::UnexpectedEnd);
        }
        let ghost before_lb2 = toks_view(tokens@);
        let is_lbrace2 = match tokens.pop_front().unwrap() {
            Token::LBRACE => true,
            _ => false,
        };
        proof {
            assert(toks_view(tokens@) =~= before_lb2.subrange(1, before_lb2.len() as int));
        }
        if !is_lbrace2 {
            return Err(ParseError::ExpectedLBrace);
        }
        let alternative = match parse(tokens) {
            Ok(a) => a,
            Err(e) => {
                return Err(e);
            },
        };
        if tokens.len() == 0 {
            return Err(ParseError::UnexpectedEnd);
        }
        let ghost before_rb2 = toks_view(tokens@);
        let is_rbrace2 = match tokens.pop_front().unwrap() {
            Token::RBRACE => true,
            _ => false,
        };
        proof {
            assert(toks_view(tokens@) =~= before_rb2.subrange(1, before_rb2.len() as int));
        }
        if !is_rbrace2 {
            return Err(ParseError::ExpectedRBrace);
        }
        alternative
    } else {
        Vec::new()
    };
    proof {
        if !has_else {
            assert(stmts_view(alternative@) =~= Seq::<StmtView>::empty());
        }
    }
    Ok(Expression::If { condition: Box::new(condition), consequence, alternative })
}

/// Parse a function literal, after its `fn` keyword has been consumed.
fn parse_fn_literal(tokens: &mut VecDeque<Token>) -> (r: Result<Expression, ParseError>)
    ensures
        expr_result_matches(
            parse_fn_spec(toks_view(old(tokens)@)),
            r,
            toks_view(final(tokens)@),
        ),
        final(tokens)@.len() <= old(tokens)@.len(),
    decreases tokens@.len(), 3int,
{
    let ghost ts0 = toks_view(tokens@);
    if tokens.len() == 0 {
        return Err(ParseError::UnexpectedEnd);
    }
    let is_lparen = match tokens.pop_front().unwrap() {
        Token::LPAREN => true,
        _ => false,
    };
    proof {
        assert(toks_view(tokens@) =~= ts0.subrange(1, ts0.len() as int));
    }
    if !is_lparen {
        return Err(ParseError::ExpectedLParen);
    }
    let parameters = match parse_fn_params(tokens) {
        Ok(p) => p,
        Err(e) => {
            return Err(e);
        },
    };
    if tokens.len() == 0 {
        return Err(ParseError::UnexpectedEnd);
    }
    let ghost before_lb = toks_view(tokens@);
    let is_lbrace = match tokens.pop_front().unwrap() {
        Token::LBRACE => true,
        _ => false,
    };
    proof {
        assert(toks_view(tokens@) =~= before_lb.subrange(1, before_lb.len() as int));
    }
    if !is_lbrace {
        return Err(ParseError::ExpectedLBrace);
    }
    let body = match parse(tokens) {
        Ok(b) => b,
        Err(e) => {
            return Err(e);
        },
    };
    if tokens.len() == 0 {
        return Err(ParseError::UnexpectedEnd);
    }
    let ghost before_rb = toks_view(tokens@);
    let is_rbrace = match tokens.pop_front().unwrap() {
        Token::RBRACE => true,
        _ => false,
    };
    proof {
        assert(toks_view(tokens@) =~= before_rb.subrange(1, before_rb.len() as int));
    }
    if !is_rbrace {
        return Err(ParseError::ExpectedRBrace);
    }
    Ok(Expression::FnLiteral { parameters, body })
}

/// Parse an identifier, or a call of the named function when an opening
/// parenthesis follows.
fn parse_ident_or_call(tokens: &mut VecDeque<Token>, name: String) -> (r: Result<
    Expression,
    ParseError,
>)
    ensures
        expr_result_matches(
            parse_ident_spec(name@, toks_view(old(tokens)@)),
            r,
            toks_view(final(tokens)@),
        ),
        final(tokens)@.len() <= old(tokens)@.len(),
    decreases tokens@.len(), 4int,
{
    let ghost rest0 = toks_view(tokens@);
    if tokens.len() == 0 {
        return Err(ParseError::UnexpectedEnd);
    }
    let is_call = match &tokens[0] {
        Token::LPAREN => true,
        _ => false,
    };
    proof {
        assert(rest0[0] == tokens@[0]@);
        assert(is_call == rest0[0] is LPAREN);
    }
    if is_call {
        tokens.pop_front();
        proof {
            assert(toks_view(tokens@) =~= rest0.subrange(1, rest0.len() as int));
        }
        let args = match parse_call_args(tokens) {
            Ok(a) => a,
            Err(e) => {
                return Err(e);
            },
        };
        let ghost argsv = args@;
        let e = Expression::FnCall { function: Box::new(Expression::Ident(name)), args };
        proof {
            assert(expr_view(Expression::Ident(name)) == ExprView::Ident(name@));
            assert(expr_view(e) == (ExprView::FnCall {
                function: Box::new(ExprView::Ident(name@)),
                args: exprs_view(argsv),
            }));
        }
        Ok(e)
    } else {
        Ok(Expression::Ident(name))
    }
}

/// Parse a parenthesised expression, after its opening parenthesis has been
/// consumed.
fn parse_grouped(tokens: &mut VecDeque<Token>) -> (r: Result<Expression, ParseError>)
    ensures
        expr_result_matches(
            parse_grouped_spec(toks_view(old(tokens)@)),
            r,
            toks_view(final(tokens)@),
        ),
        final(tokens)@.len() <= old(tokens)@.len(),
    decreases tokens@.len(), 3int,
{
    let exp = match parse_expression(tokens, LOWEST) {
        Ok(e) => e,
        Err(e) => {
            return Err(e);
        },
    };
    if tokens.len() == 0 {
        return Err(ParseError::ExpectedRParen);
    }
    let ghost before_rp = toks_view(tokens@);
    let is_rparen = match tokens.pop_front().unwrap() {
        Token::RPAREN => true,
        _ => false,
    };
    proof {
        assert(toks_view(tokens@) =~= before_rp.subrange(1, before_rp.len() as int));
    }
    if !is_rparen {
        return Err(ParseError::ExpectedRParen);
    }
    Ok(exp)
}

/// Parse a prefix operator's operand, after the operator itself has been
/// consumed, and apply the operator.
fn parse_prefixed(tokens: &mut VecDeque<Token>, prefix: Prefix) -> (r: Result<
    Expression,
    ParseError,
>)
    ensures
        expr_result_matches(
            parse_prefix_spec(prefix, toks_view(old(tokens)@)),
            r,
            toks_view(final(tokens)@),
        ),
        final(tokens)@.len() <= old(tokens)@.len(),
    decreases tokens@.len(), 3int,
{
    let value = match parse_expression(tokens, PREFIX) {
        Ok(v) => v,
        Err(e) => {
            return Err(e);
        },
    };
    Ok(Expression::Prefix { prefix, value: Box::new(value) })
}

/// Parse the leading prefix form of an expression: a literal, an
/// identifier or call, a grouped expression, a conditional, a prefix
/// operator application, or a function literal.
fn parse_left(tokens: &mut VecDeque<Token>) -> (r: Result<Expression, ParseError>)
    ensures
        expr_result_matches(
            parse_left_spec(toks_view(old(tokens)@)),
            r,
            toks_view(final(tokens)@),
        ),
        r is Ok ==> final(tokens)@.len() < old(tokens)@.len(),
        final(tokens)@.len() <= old(tokens)@.len(),
    decreases tokens@.len(), 1int,
{
    let ghost ts0 = toks_view(tokens@);
    if tokens.len() == 0 {
        return Err(ParseError::UnexpectedEnd);
    }
    let tok = tokens.pop_front().unwrap();
    proof {
        assert(toks_view(tokens@) =~= ts0.subrange(1, ts0.len() as int));
    }
    match tok {
        Token::INT(val) => Ok(Expression::Int(val)),
        Token::TRUE => Ok(Expression::Boolean(true)),
        Token::FALSE => Ok(Expression::Boolean(false)),
        Token::STRING(val) => Ok(Expression::String(val)),
        Token::IDENT(name) => parse_ident_or_call(tokens, name),
        Token::LPAREN => parse_grouped(tokens),
        Token::IF => parse_if(tokens),
        Token::MINUS => parse_prefixed(tokens, Prefix::MINUS),
        Token::BANG => parse_prefixed(tokens, Prefix::BANG),
        Token::FN => parse_fn_literal(tokens),
        _ => Err(ParseError::UnexpectedToken),
    }
}

/// Parse one expression at the given binding power: a leading prefix form,
/// then infix operators as long as they bind tighter than `precedence`.
pub fn parse_expression(tokens: &mut VecDeque<Token>, precedence: u8) -> (r: Result<
    Expression,
    ParseError,
>)
    ensures
        expr_result_matches(
            parse_expr_spec(toks_view(old(tokens)@), precedence),
            r,
            toks_view(final(tokens)@),
        ),
        r is Ok ==> final(tokens)@.len() < old(tokens)@.len(),
        final(tokens)@.len() <= old(tokens)@.len(),
    decreases tokens@.len(), 2int,
{
    let ghost ts0 = toks_view(tokens@);
    let mut left_exp: Expression = match parse_left(tokens) {
        Ok(e) => e,
        Err(e) => {
            return Err(e);
        },
    };
    let ghost chain_ts0 = toks_view(tokens@);
    let ghost chain_left0 = expr_view(left_exp);
    loop
        invariant
            toks_view(tokens@).len() <= chain_ts0.len(),
            tokens@.len() == toks_view(tokens@).len(),
            chain_ts0.len() < ts0.len(),
            ts0 == toks_view(old(tokens)@),
            parse_expr_spec(ts0, precedence) == parse_infix_chain(
                expr_view(left_exp),
                toks_view(tokens@),
                precedence,
            ),
        ensures
            parse_expr_spec(ts0, precedence) == Ok::<(ExprView, Seq<TokenView>), ParseError>(
                (expr_view(left_exp), toks_view(tokens@)),
            ),
            toks_view(tokens@).len() <= chain_ts0.len(),
        decreases tokens@.len(), 2int,
    {
        let ghost cur0 = toks_view(tokens@);
        let ghost left0 = expr_view(left_exp);
        if tokens.len() == 0 {
            return Err(ParseError::UnexpectedEnd);
        }
        let next_precedence = tokens[0].precedence();
        if !(precedence < next_precedence) {
            break ;
        }
        left_exp = match parse_infix(tokens, left_exp) {
            Ok(e) => e,
            Err(e) => {
                return Err(e);
            },
        };
    }
    Ok(left_exp)
}

} // verus!
