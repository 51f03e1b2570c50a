//! A recursive-descent parser from tokens to statements.
//!
//! Grammar (lowest precedence first; binary operators are left-associative):
//!
//! ```text
//! program  := stmt* EOF
//! stmt     := "let" IDENT (":" type)? "=" expr ";"
//!           | "if" expr block ("else" (block | if-stmt))?
//!           | "while" expr block
//!           | "return" expr? ";"
//!           | "fn" IDENT "(" (IDENT ":" type ("," IDENT ":" type)*)? ")" ("-" ">" type)? block
//!           | IDENT "=" expr ";"
//!           | expr ";"
//! block    := "{" stmt* "}"
//! expr     := level0
//! level0   := level1 ("||" level1)*
//! level1   := level2 ("&&" level2)*
//! level2   := level3 (("==" | "!=") level3)*
//! level3   := level4 (("<" | "<=" | ">" | ">=") level4)*
//! level4   := level5 (("+" | "-") level5)*
//! level5   := unary (("*" | "/" | "%") unary)*
//! unary    := ("-" | "!") unary | primary
//! primary  := INT | FLOAT | STR | "true" | "false" | "nil"
//!           | IDENT "(" (expr ("," expr)*)? ")" | IDENT | "(" expr ")"
//! type     := "int" | "float" | "bool" | "str" | "nil" | IDENT
//! ```

use vstd::prelude::*;
use vstd::string::{StrSliceExecFns, StringExecFns, StringSliceAdditionalSpecFns};
use crate::ast::{
    exprs_view, expr_view, lemma_exprs_view_push, lemma_stmts_view_push, stmt_view, stmts_view, BinOp,
    Expr, SExpr, SStmt, Stmt, Ty, UnOp,
};
use crate::lexer::{source_lexable, Lexer};
use crate::strings::{concat3, debug_text, i64_text, int_text, str_debug};
use crate::token::{Token, TokenKind};

verus! {

/// A spec-level parse result: the value and the position after it, or the
/// index of the token where parsing failed with what was expected there.
pub type PRes<T> = Result<(T, int), (int, Seq<char>)>;

/// A failure at a position the parser never stops at on tokens that end with
/// `Eof`: out of range, or not past where it started.
pub open spec fn stuck(p: int) -> (int, Seq<char>) {
    (p, Seq::empty())
}

// ---------------------------------------------------------------------------
// Token helpers

pub open spec fn kind_at(t: Seq<Token>, p: int) -> TokenKind {
    if 0 <= p < t.len() {
        t[p].kind
    } else {
        TokenKind::Eof
    }
}

/// Tokens end with `Eof`.
pub open spec fn tokens_wf(t: Seq<Token>) -> bool {
    t.len() >= 1 && t.last().kind is Eof
}

/// The binary operator that a token kind stands for at a precedence level.
pub open spec fn binop_for(level: int, k: TokenKind) -> Option<BinOp> {
    if level == 0 {
        if k is PipePipe {
            Some(BinOp::Or)
        } else {
            None
        }
    } else if level == 1 {
        if k is AmpAmp {
            Some(BinOp::And)
        } else {
            None
        }
    } else if level == 2 {
        match k {
            TokenKind::EqualEqual => Some(BinOp::Eq),
            TokenKind::BangEqual => Some(BinOp::NotEq),
            _ => None,
        }
    } else if level == 3 {
        match k {
            TokenKind::Less => Some(BinOp::Lt),
            TokenKind::LessEqual => Some(BinOp::LtEq),
            TokenKind::Greater => Some(BinOp::Gt),
            TokenKind::GreaterEqual => Some(BinOp::GtEq),
            _ => None,
        }
    } else if level == 4 {
        match k {
            TokenKind::Plus => Some(BinOp::Add),
            TokenKind::Minus => Some(BinOp::Sub),
            _ => None,
        }
    } else {
        match k {
            TokenKind::Star => Some(BinOp::Mul),
            TokenKind::Slash => Some(BinOp::Div),
            TokenKind::Percent => Some(BinOp::Mod),
            _ => None,
        }
    }
}

pub open spec fn lit_int() -> Seq<char> {
    seq!['i', 'n', 't']
}

pub open spec fn lit_float() -> Seq<char> {
    seq!['f', 'l', 'o', 'a', 't']
}

pub open spec fn lit_bool() -> Seq<char> {
    seq!['b', 'o', 'o', 'l']
}

pub open spec fn lit_str() -> Seq<char> {
    seq!['s', 't', 'r']
}

/// A type name at `p`.
pub open spec fn type_at(t: Seq<Token>, p: int) -> PRes<Ty> {
    match kind_at(t, p) {
        TokenKind::Nil => Ok((Ty::Nil, p + 1)),
        TokenKind::Ident(s) => {
            let ty = if s@ == lit_int() {
                Ty::Int
            } else if s@ == lit_float() {
                Ty::Float
            } else if s@ == lit_bool() {
                Ty::Bool
            } else if s@ == lit_str() {
                Ty::Str
            } else {
                Ty::Named(s)
            };
            Ok((ty, p + 1))
        },
        _ => Err((p, "expected a type"@)),
    }
}

/// A parameter list from `p` (after the opening parenthesis) to the closing one.
pub open spec fn params_at(t: Seq<Token>, p: int, acc: Seq<(String, Ty)>) -> PRes<Seq<(String, Ty)>>
    decreases t.len() - p,
{
    if p < 0 || p >= t.len() {
        Err(stuck(p))
    } else if acc.len() == 0 && kind_at(t, p) is RParen {
        Ok((acc, p + 1))
    } else {
        match kind_at(t, p) {
            TokenKind::Ident(name) => if !(kind_at(t, p + 1) is Colon) {
                Err((p + 1, "expected ':' after parameter name"@))
            } else {
                match type_at(t, p + 2) {
                    Err(i) => Err(i),
                    Ok((ty, q)) => {
                        let acc2 = acc.push((name, ty));
                        if kind_at(t, q) is RParen {
                            Ok((acc2, q + 1))
                        } else if kind_at(t, q) is Comma {
                            params_at(t, q + 1, acc2)
                        } else {
                            Err((q, "expected ',' or ')' in parameters"@))
                        }
                    },
                }
            },
            _ => Err((p, "expected a parameter name"@)),
        }
    }
}

// ---------------------------------------------------------------------------
// The grammar

/// A primary expression at `p`.
pub open spec fn primary_at(t: Seq<Token>, p: int) -> PRes<SExpr>
    decreases t.len() - p, 0int,
{
    if p < 0 || p >= t.len() {
        Err(stuck(p))
    } else {
        match kind_at(t, p) {
            TokenKind::Int(n) => Ok((SExpr::Int(n), p + 1)),
            TokenKind::Float(b) => Ok((SExpr::Float(b), p + 1)),
            TokenKind::Str(s) => Ok((SExpr::Str(s), p + 1)),
            TokenKind::True => Ok((SExpr::Bool(true), p + 1)),
            TokenKind::False => Ok((SExpr::Bool(false), p + 1)),
            TokenKind::Nil => Ok((SExpr::Nil, p + 1)),
            TokenKind::Ident(name) => if kind_at(t, p + 1) is LParen {
                match args_at(t, p + 2, Seq::empty()) {
                    Ok((args, q)) => Ok((SExpr::Call { callee: name, args }, q)),
                    Err(i) => Err(i),
                }
            } else {
                Ok((SExpr::Var(name), p + 1))
            },
            TokenKind::LParen => match binary_at(t, p + 1, 0) {
                Ok((e, q)) => if kind_at(t, q) is RParen {
                    Ok((SExpr::Group(Box::new(e)), q + 1))
                } else {
                    Err((q, "expected ')' after expression"@))
                },
                Err(i) => Err(i),
            },
            _ => Err((p, "expected an expression"@)),
        }
    }
}

/// Call arguments from `p` up to and including the closing parenthesis,
/// after the arguments `acc` already read.
pub open spec fn args_at(t: Seq<Token>, p: int, acc: Seq<SExpr>) -> PRes<Seq<SExpr>>
    decreases t.len() - p, 16int,
{
    if p < 0 || p >= t.len() {
        Err(stuck(p))
    } else if acc.len() == 0 && kind_at(t, p) is RParen {
        Ok((acc, p + 1))
    } else {
        match binary_at(t, p, 0) {
            Err(i) => Err(i),
            Ok((e, q)) => if q <= p || q > t.len() {
                Err(stuck(p))
            } else if kind_at(t, q) is RParen {
                Ok((acc.push(e), q + 1))
            } else if kind_at(t, q) is Comma {
                args_at(t, q + 1, acc.push(e))
            } else {
                Err((q, "expected ',' or ')' in arguments"@))
            },
        }
    }
}

/// A unary expression at `p`.
pub open spec fn unary_at(t: Seq<Token>, p: int) -> PRes<SExpr>
    decreases t.len() - p, 1int,
{
    if p < 0 || p >= t.len() {
        Err(stuck(p))
    } else if kind_at(t, p) is Minus || kind_at(t, p) is Bang {
        let op = if kind_at(t, p) is Minus {
            UnOp::Neg
        } else {
            UnOp::Not
        };
        match unary_at(t, p + 1) {
            Ok((e, q)) => Ok((SExpr::Unary { op, expr: Box::new(e) }, q)),
            Err(i) => Err(i),
        }
    } else {
        primary_at(t, p)
    }
}

/// The operand of a binary operator at `level`: the next level, or a unary
/// expression below level 5.
pub open spec fn operand_at(t: Seq<Token>, p: int, level: int) -> PRes<SExpr>
    decreases t.len() - p, 2 * (6 - level) + 2,
{
    if p < 0 || p >= t.len() || level < 0 || level > 5 {
        Err(stuck(p))
    } else if level == 5 {
        unary_at(t, p)
    } else {
        binary_at(t, p, level + 1)
    }
}

/// A binary expression at precedence `level` (0 to 5) at `p`.
pub open spec fn binary_at(t: Seq<Token>, p: int, level: int) -> PRes<SExpr>
    decreases t.len() - p, 2 * (6 - level) + 3,
{
    if p < 0 || p >= t.len() || level < 0 || level > 5 {
        Err(stuck(p))
    } else {
        match operand_at(t, p, level) {
            Err(i) => Err(i),
            Ok((lhs, q)) => if q <= p || q > t.len() {
                Err(stuck(p))
            } else {
                binary_rest(t, q, level, lhs)
            },
        }
    }
}

/// Operators and operands at `level` after the left operand `lhs`.
pub open spec fn binary_rest(t: Seq<Token>, p: int, level: int, lhs: SExpr) -> PRes<SExpr>
    decreases t.len() - p, 0int,
{
    if p < 0 || p >= t.len() || level < 0 || level > 5 {
        Err(stuck(p))
    } else {
        match binop_for(level, kind_at(t, p)) {
            None => Ok((lhs, p)),
            Some(op) => match operand_at(t, p + 1, level) {
                Err(i) => Err(i),
                Ok((rhs, q)) => if q <= p || q > t.len() {
                    Err(stuck(p))
                } else {
                    binary_rest(
                        t,
                        q,
                        level,
                        SExpr::Binary { op, lhs: Box::new(lhs), rhs: Box::new(rhs) },
                    )
                },
            },
        }
    }
}

/// An expression followed by `;`.
pub open spec fn expr_semi(t: Seq<Token>, p: int) -> PRes<SExpr>
    decreases t.len() - p, 16int,
{
    if p < 0 || p >= t.len() {
        Err(stuck(p))
    } else {
        match binary_at(t, p, 0) {
            Err(i) => Err(i),
            Ok((e, q)) => if kind_at(t, q) is Semicolon {
                Ok((e, q + 1))
            } else {
                Err((q, "expected ';'"@))
            },
        }
    }
}

/// A function declaration at `p` (the `fn` keyword).
pub open spec fn fn_decl_at(t: Seq<Token>, p: int) -> PRes<SStmt>
    decreases t.len() - p, 17int,
{
    if p < 0 || p >= t.len() {
        Err(stuck(p))
    } else {
        match kind_at(t, p + 1) {
            TokenKind::Ident(name) => if !(kind_at(t, p + 2) is LParen) {
                Err((p + 2, "expected '(' after function name"@))
            } else {
                match params_at(t, p + 3, Seq::empty()) {
                    Err(i) => Err(i),
                    Ok((params, q)) => {
                        let ret_res: PRes<Ty> = if kind_at(t, q) is Minus {
                            if kind_at(t, q + 1) is Greater {
                                type_at(t, q + 2)
                            } else {
                                Err((q + 1, "expected '->' before the return type"@))
                            }
                        } else {
                            Ok((Ty::Nil, q))
                        };
                        match ret_res {
                            Err(i) => Err(i),
                            Ok((ret, q2)) => if q2 <= p || q2 > t.len() {
                                Err(stuck(p))
                            } else {
                                match block_at(t, q2) {
                                    Err(i) => Err(i),
                                    Ok((body, q3)) => Ok((SStmt::Fn { name, params, ret, body }, q3)),
                                }
                            },
                        }
                    },
                }
            },
            _ => Err((p + 1, "expected a function name"@)),
        }
    }
}

/// A statement at `p`.
pub open spec fn stmt_at(t: Seq<Token>, p: int) -> PRes<SStmt>
    decreases t.len() - p, 18int,
{
    if p < 0 || p >= t.len() {
        Err(stuck(p))
    } else {
        match kind_at(t, p) {
            TokenKind::Let => match kind_at(t, p + 1) {
                TokenKind::Ident(name) => {
                    let ty_res: PRes<Option<Ty>> = if kind_at(t, p + 2) is Colon {
                        match type_at(t, p + 3) {
                            Ok((ty, q)) => Ok((Some(ty), q)),
                            Err(i) => Err(i),
                        }
                    } else {
                        Ok((None, p + 2))
                    };
                    match ty_res {
                        Err(i) => Err(i),
                        Ok((ty, q)) => if !(kind_at(t, q) is Equal) {
                            Err((q, "expected '=' in 'let'"@))
                        } else if q + 1 <= p || q + 1 > t.len() {
                            Err(stuck(p))
                        } else {
                            match expr_semi(t, q + 1) {
                                Err(i) => Err(i),
                                Ok((init, q2)) => Ok((SStmt::Let { name, ty, init }, q2)),
                            }
                        },
                    }
                },
                _ => Err((p + 1, "expected a variable name after 'let'"@)),
            },
            TokenKind::If => match binary_at(t, p + 1, 0) {
                Err(i) => Err(i),
                Ok((cond, q)) => if q <= p || q > t.len() {
                    Err(stuck(p))
                } else {
                    match block_at(t, q) {
                        Err(i) => Err(i),
                        Ok((then, q2)) => if q2 <= p || q2 > t.len() {
                            Err(stuck(p))
                        } else if kind_at(t, q2) is Else {
                            if kind_at(t, q2 + 1) is If {
                                match stmt_at(t, q2 + 1) {
                                    Err(i) => Err(i),
                                    Ok((s, q3)) => Ok(
                                        (SStmt::If { cond, then, else_: Some(seq![s]) }, q3),
                                    ),
                                }
                            } else {
                                match block_at(t, q2 + 1) {
                                    Err(i) => Err(i),
                                    Ok((els, q3)) => Ok(
                                        (SStmt::If { cond, then, else_: Some(els) }, q3),
                                    ),
                                }
                            }
                        } else {
                            Ok((SStmt::If { cond, then, else_: None }, q2))
                        },
                    }
                },
            },
            TokenKind::While => match binary_at(t, p + 1, 0) {
                Err(i) => Err(i),
                Ok((cond, q)) => if q <= p || q > t.len() {
                    Err(stuck(p))
                } else {
                    match block_at(t, q) {
                        Err(i) => Err(i),
                        Ok((body, q2)) => Ok((SStmt::While { cond, body }, q2)),
                    }
                },
            },
            TokenKind::Return => if kind_at(t, p + 1) is Semicolon {
                Ok((SStmt::Return(SExpr::Nil), p + 2))
            } else {
                match expr_semi(t, p + 1) {
                    Err(i) => Err(i),
                    Ok((e, q)) => Ok((SStmt::Return(e), q)),
                }
            },
            TokenKind::Fn => fn_decl_at(t, p),
            TokenKind::Ident(name) => if kind_at(t, p + 1) is Equal {
                match expr_semi(t, p + 2) {
                    Err(i) => Err(i),
                    Ok((value, q)) => Ok((SStmt::Assign { name, value }, q)),
                }
            } else {
                match expr_semi(t, p) {
                    Err(i) => Err(i),
                    Ok((e, q)) => Ok((SStmt::ExprStmt(e), q)),
                }
            },
            _ => match expr_semi(t, p) {
                Err(i) => Err(i),
                Ok((e, q)) => Ok((SStmt::ExprStmt(e), q)),
            },
        }
    }
}

/// A block at `p` (the opening brace).
pub open spec fn block_at(t: Seq<Token>, p: int) -> PRes<Seq<SStmt>>
    decreases t.len() - p, 19int,
{
    if p < 0 || p >= t.len() {
        Err(stuck(p))
    } else if kind_at(t, p) is LBrace {
        items_at(t, p + 1, Seq::empty())
    } else {
        Err((p, "expected '{'"@))
    }
}

/// The statements of a block from `p` up to and including the closing
/// brace, after the statements `acc` already read.
pub open spec fn items_at(t: Seq<Token>, p: int, acc: Seq<SStmt>) -> PRes<Seq<SStmt>>
    decreases t.len() - p, 20int,
{
    if p < 0 || p >= t.len() {
        Err(stuck(p))
    } else if kind_at(t, p) is RBrace {
        Ok((acc, p + 1))
    } else {
        match stmt_at(t, p) {
            Err(i) => Err(i),
            Ok((s, q)) => if q <= p || q > t.len() {
                Err(stuck(p))
            } else {
                items_at(t, q, acc.push(s))
            },
        }
    }
}

/// The statements from `p` to the first `Eof`, after the statements `acc`.
pub open spec fn program_at(t: Seq<Token>, p: int, acc: Seq<SStmt>) -> PRes<Seq<SStmt>>
    decreases t.len() - p,
{
    if p < 0 || p >= t.len() {
        Err(stuck(p))
    } else if kind_at(t, p) is Eof {
        Ok((acc, p))
    } else {
        match stmt_at(t, p) {
            Err(i) => Err(i),
            Ok((s, q)) => if q <= p || q > t.len() {
                Err(stuck(p))
            } else {
                program_at(t, q, acc.push(s))
            },
        }
    }
}

// ---------------------------------------------------------------------------
// Errors

#[derive(Debug)]
pub struct ParseError {
    pub msg: String,
    pub line: usize,
    pub col: usize,
}

impl ParseError {
    pub fn new(msg: String, tok: &Token) -> (e: Self)
        ensures
            e.msg == msg,
            e.line == tok.line,
            e.col == tok.col,
    {
        Self { msg, line: tok.line, col: tok.col }
    }
}

pub type ParseResult<T> = Result<T, ParseError>;

/// An error reported at a failure: the line and column of its token, and a
/// message with what was expected and the kind of token that came.
pub open spec fn err_at(e: ParseError, t: Seq<Token>, f: (int, Seq<char>)) -> bool {
    &&& 0 <= f.0 < t.len()
    &&& e.line == t[f.0].line
    &&& e.col == t[f.0].col
    &&& e.msg@ == parse_message(f.1, t[f.0].kind)
}

pub open spec fn expr_res(r: ParseResult<(Expr, usize)>, s: PRes<SExpr>, t: Seq<Token>) -> bool {
    match s {
        Ok((se, q)) => r matches Ok((e, q2)) && expr_view(e) == se && q2 == q,
        Err(i) => r matches Err(pe) && err_at(pe, t, i),
    }
}

pub open spec fn exprs_res(r: ParseResult<(Vec<Expr>, usize)>, s: PRes<Seq<SExpr>>, t: Seq<Token>) -> bool {
    match s {
        Ok((se, q)) => r matches Ok((e, q2)) && exprs_view(e@) == se && q2 == q,
        Err(i) => r matches Err(pe) && err_at(pe, t, i),
    }
}

pub open spec fn stmt_res(r: ParseResult<(Stmt, usize)>, s: PRes<SStmt>, t: Seq<Token>) -> bool {
    match s {
        Ok((se, q)) => r matches Ok((e, q2)) && stmt_view(e) == se && q2 == q,
        Err(i) => r matches Err(pe) && err_at(pe, t, i),
    }
}

pub open spec fn stmts_res(r: ParseResult<(Vec<Stmt>, usize)>, s: PRes<Seq<SStmt>>, t: Seq<Token>) -> bool {
    match s {
        Ok((se, q)) => r matches Ok((e, q2)) && stmts_view(e@) == se && q2 == q,
        Err(i) => r matches Err(pe) && err_at(pe, t, i),
    }
}

pub open spec fn plain_res<T>(r: ParseResult<(T, usize)>, s: PRes<T>, t: Seq<Token>) -> bool {
    match s {
        Ok((v, q)) => r matches Ok((v2, q2)) && v2 == v && q2 == q,
        Err(i) => r matches Err(pe) && err_at(pe, t, i),
    }
}

/// The position after a successful parse lies after its start and before the end.
pub open spec fn advances<T>(r: ParseResult<(T, usize)>, p: int, t: Seq<Token>) -> bool {
    r matches Ok((_, q)) ==> p < q < t.len()
}

/// A token kind as its debug text shows it, such as `Semicolon`, `Int(7)`
/// or `Ident("x")`. A float literal shows only its variant's name, `Float`.
pub open spec fn kind_debug(k: TokenKind) -> Seq<char> {
    match k {
        TokenKind::Int(n) => "Int("@ + int_text(n as int) + ")"@,
        TokenKind::Float(_) => "Float"@,
        TokenKind::Str(x) => "Str("@ + (seq!['"'] + str_debug(x@) + seq!['"']) + ")"@,
        TokenKind::Ident(x) => "Ident("@ + (seq!['"'] + str_debug(x@) + seq!['"']) + ")"@,
        TokenKind::Plus => "Plus"@,
        TokenKind::Minus => "Minus"@,
        TokenKind::Star => "Star"@,
        TokenKind::Slash => "Slash"@,
        TokenKind::Percent => "Percent"@,
        TokenKind::LParen => "LParen"@,
        TokenKind::RParen => "RParen"@,
        TokenKind::LBrace => "LBrace"@,
        TokenKind::RBrace => "RBrace"@,
        TokenKind::Comma => "Comma"@,
        TokenKind::Semicolon => "Semicolon"@,
        TokenKind::Colon => "Colon"@,
        TokenKind::Bang => "Bang"@,
        TokenKind::Equal => "Equal"@,
        TokenKind::Less => "Less"@,
        TokenKind::Greater => "Greater"@,
        TokenKind::BangEqual => "BangEqual"@,
        TokenKind::EqualEqual => "EqualEqual"@,
        TokenKind::LessEqual => "LessEqual"@,
        TokenKind::GreaterEqual => "GreaterEqual"@,
        TokenKind::AmpAmp => "AmpAmp"@,
        TokenKind::PipePipe => "PipePipe"@,
        TokenKind::Let => "Let"@,
        TokenKind::Fn => "Fn"@,
        TokenKind::If => "If"@,
        TokenKind::Else => "Else"@,
        TokenKind::While => "While"@,
        TokenKind::Return => "Return"@,
        TokenKind::True => "True"@,
        TokenKind::False => "False"@,
        TokenKind::Nil => "Nil"@,
        TokenKind::Eof => "Eof"@,
    }
}

/// The message of a parse error: what was expected, and the kind of the
/// token that came instead.
pub open spec fn parse_message(expected: Seq<char>, got: TokenKind) -> Seq<char> {
    expected + " — got "@ + kind_debug(got)
}

/// The debug text of a token kind, for error messages.
fn describe(k: &TokenKind) -> (s: String)
    ensures
        s@ == kind_debug(*k),
{
    match k {
        TokenKind::Int(n) => {
            let digits = i64_text(*n);
            concat3("Int(", digits.as_str(), ")")
        },
        TokenKind::Float(_) => String::from_str("Float"),
        TokenKind::Str(x) => {
            let quoted = debug_text(x.as_str());
            concat3("Str(", quoted.as_str(), ")")
        },
        TokenKind::Ident(x) => {
            let quoted = debug_text(x.as_str());
            concat3("Ident(", quoted.as_str(), ")")
        },
        TokenKind::Plus => String::from_str("Plus"),
        TokenKind::Minus => String::from_str("Minus"),
        TokenKind::Star => String::from_str("Star"),
        TokenKind::Slash => String::from_str("Slash"),
        TokenKind::Percent => String::from_str("Percent"),
        TokenKind::LParen => String::from_str("LParen"),
        TokenKind::RParen => String::from_str("RParen"),
        TokenKind::LBrace => String::from_str("LBrace"),
        TokenKind::RBrace => String::from_str("RBrace"),
        TokenKind::Comma => String::from_str("Comma"),
        TokenKind::Semicolon => String::from_str("Semicolon"),
        TokenKind::Colon => String::from_str("Colon"),
        TokenKind::Bang => String::from_str("Bang"),
        TokenKind::Equal => String::from_str("Equal"),
        TokenKind::Less => String::from_str("Less"),
        TokenKind::Greater => String::from_str("Greater"),
        TokenKind::BangEqual => String::from_str("BangEqual"),
        TokenKind::EqualEqual => String::from_str("EqualEqual"),
        TokenKind::LessEqual => String::from_str("LessEqual"),
        TokenKind::GreaterEqual => String::from_str("GreaterEqual"),
        TokenKind::AmpAmp => String::from_str("AmpAmp"),
        TokenKind::PipePipe => String::from_str("PipePipe"),
        TokenKind::Let => String::from_str("Let"),
        TokenKind::Fn => String::from_str("Fn"),
        TokenKind::If => String::from_str("If"),
        TokenKind::Else => String::from_str("Else"),
        TokenKind::While => String::from_str("While"),
        TokenKind::Return => String::from_str("Return"),
        TokenKind::True => String::from_str("True"),
        TokenKind::False => String::from_str("False"),
        TokenKind::Nil => String::from_str("Nil"),
        TokenKind::Eof => String::from_str("Eof"),
    }
}

/// An error at token `p`: what was expected, and what came.
fn error_at(t: &Vec<Token>, p: usize, expected: &str) -> (e: ParseError)
    requires
        p < t@.len(),
    ensures
        err_at(e, t@, (p as int, expected@)),
{
    let mut msg = String::from_str(expected);
    msg.append(" — got ");
    let got = describe(&t[p].kind);
    msg.append(got.as_str());
    ParseError::new(msg, &t[p])
}

proof fn lemma_next_in_range(t: Seq<Token>, p: int)
    requires
        tokens_wf(t),
        0 <= p < t.len(),
        !(t[p].kind is Eof),
    ensures
        p + 1 < t.len(),
{
}

/// Vector lengths fit in `usize`.
proof fn lemma_len_fits(t: &Vec<Token>)
    ensures
        t@.len() <= usize::MAX,
{
    assert(t@.len() == t.len());
}

// ---------------------------------------------------------------------------
// Exec helpers


/// Whether a string is the given word.
fn string_is(s: &String, w: &[char]) -> (b: bool)
    ensures
        b == (s@ == w@),
{
    let st = s.as_str();
    let n = st.unicode_len();
    if n != w.len() {
        return false;
    }
    let mut i: usize = 0;
    while i < n
        invariant
            n == s@.len(),
            n == w@.len(),
            st@ == s@,
            i <= n,
            forall|j: int| 0 <= j < i ==> s@[j] == w@[j],
        decreases n - i,
    {
        if st.get_char(i) != w[i] {
            return false;
        }
        i = i + 1;
    }
    assert(s@ =~= w@);
    true
}

fn binop_exec(level: usize, k: &TokenKind) -> (r: Option<BinOp>)
    ensures
        r == binop_for(level as int, *k),
{
    if level == 0 {
        match k {
            TokenKind::PipePipe => Some(BinOp::Or),
            _ => None,
        }
    } else if level == 1 {
        match k {
            TokenKind::AmpAmp => Some(BinOp::And),
            _ => None,
        }
    } else if level == 2 {
        match k {
            TokenKind::EqualEqual => Some(BinOp::Eq),
            TokenKind::BangEqual => Some(BinOp::NotEq),
            _ => None,
        }
    } else if level == 3 {
        match k {
            TokenKind::Less => Some(BinOp::Lt),
            TokenKind::LessEqual => Some(BinOp::LtEq),
            TokenKind::Greater => Some(BinOp::Gt),
            TokenKind::GreaterEqual => Some(BinOp::GtEq),
            _ => None,
        }
    } else if level == 4 {
        match k {
            TokenKind::Plus => Some(BinOp::Add),
            TokenKind::Minus => Some(BinOp::Sub),
            _ => None,
        }
    } else {
        match k {
            TokenKind::Star => Some(BinOp::Mul),
            TokenKind::Slash => Some(BinOp::Div),
            TokenKind::Percent => Some(BinOp::Mod),
            _ => None,
        }
    }
}

fn is_kind_rparen(k: &TokenKind) -> (b: bool)
    ensures
        b == (*k is RParen),
{
    match k {
        TokenKind::RParen => true,
        _ => false,
    }
}

fn is_kind_comma(k: &TokenKind) -> (b: bool)
    ensures
        b == (*k is Comma),
{
    match k {
        TokenKind::Comma => true,
        _ => false,
    }
}

fn is_kind_semicolon(k: &TokenKind) -> (b: bool)
    ensures
        b == (*k is Semicolon),
{
    match k {
        TokenKind::Semicolon => true,
        _ => false,
    }
}

fn is_kind(k: &TokenKind, which: u8) -> (b: bool)
    ensures
        which == 0 ==> b == (*k is LParen),
        which == 1 ==> b == (*k is Colon),
        which == 2 ==> b == (*k is Equal),
        which == 3 ==> b == (*k is LBrace),
        which == 4 ==> b == (*k is RBrace),
        which == 5 ==> b == (*k is Else),
        which == 6 ==> b == (*k is If),
        which == 7 ==> b == (*k is Minus),
        which == 8 ==> b == (*k is Greater),
        which == 9 ==> b == (*k is Eof),
{
    match k {
        TokenKind::LParen => which == 0,
        TokenKind::Colon => which == 1,
        TokenKind::Equal => which == 2,
        TokenKind::LBrace => which == 3,
        TokenKind::RBrace => which == 4,
        TokenKind::Else => which == 5,
        TokenKind::If => which == 6,
        TokenKind::Minus => which == 7,
        TokenKind::Greater => which == 8,
        TokenKind::Eof => which == 9,
        _ => false,
    }
}

// ---------------------------------------------------------------------------
// Exec parsing

fn parse_type(t: &Vec<Token>, p: usize) -> (r: ParseResult<(Ty, usize)>)
    requires
        tokens_wf(t@),
        p < t@.len(),
    ensures
        plain_res(r, type_at(t@, p as int), t@),
        advances(r, p as int, t@),
{
    match &t[p].kind {
        TokenKind::Nil => {
            proof {
                lemma_next_in_range(t@, p as int);
                lemma_len_fits(t);
            }
            Ok((Ty::Nil, p + 1))
        },
        TokenKind::Ident(s) => {
            proof {
                lemma_next_in_range(t@, p as int);
                lemma_len_fits(t);
            }
            let ty = if string_is(s, &['i', 'n', 't']) {
                Ty::Int
            } else if string_is(s, &['f', 'l', 'o', 'a', 't']) {
                Ty::Float
            } else if string_is(s, &['b', 'o', 'o', 'l']) {
                Ty::Bool
            } else if string_is(s, &['s', 't', 'r']) {
                Ty::Str
            } else {
                Ty::Named(s.clone())
            };
            Ok((ty, p + 1))
        },
        _ => Err(error_at(t, p, "expected a type")),
    }
}

fn parse_primary(t: &Vec<Token>, p: usize) -> (r: ParseResult<(Expr, usize)>)
    requires
        tokens_wf(t@),
        p < t@.len(),
    ensures
        expr_res(r, primary_at(t@, p as int), t@),
        advances(r, p as int, t@),
    decreases t@.len() - p, 0int,
{
    proof {
        lemma_len_fits(t);
    }
    match &t[p].kind {
        TokenKind::Int(n) => {
            proof { lemma_next_in_range(t@, p as int); }
            Ok((Expr::Int(*n), p + 1))
        },
        TokenKind::Float(b) => {
            proof { lemma_next_in_range(t@, p as int); }
            Ok((Expr::Float(*b), p + 1))
        },
        TokenKind::Str(st) => {
            proof { lemma_next_in_range(t@, p as int); }
            Ok((Expr::Str(st.clone()), p + 1))
        },
        TokenKind::True => {
            proof { lemma_next_in_range(t@, p as int); }
            Ok((Expr::Bool(true), p + 1))
        },
        TokenKind::False => {
            proof { lemma_next_in_range(t@, p as int); }
            Ok((Expr::Bool(false), p + 1))
        },
        TokenKind::Nil => {
            proof { lemma_next_in_range(t@, p as int); }
            Ok((Expr::Nil, p + 1))
        },
        TokenKind::Ident(name) => {
            proof { lemma_next_in_range(t@, p as int); }
            if is_kind(&t[p + 1].kind, 0) {
                proof { lemma_next_in_range(t@, p + 1); }
                let (args, q) = parse_args(t, p + 2)?;
                Ok((Expr::Call { callee: name.clone(), args }, q))
            } else {
                Ok((Expr::Var(name.clone()), p + 1))
            }
        },
        TokenKind::LParen => {
            proof { lemma_next_in_range(t@, p as int); }
            let (e, q) = parse_binary(t, p + 1, 0)?;
            if is_kind_rparen(&t[q].kind) {
                proof { lemma_next_in_range(t@, q as int); }
                Ok((Expr::Group(Box::new(e)), q + 1))
            } else {
                Err(error_at(t, q, "expected ')' after expression"))
            }
        },
        _ => Err(error_at(t, p, "expected an expression")),
    }
}

fn parse_args(t: &Vec<Token>, p: usize) -> (r: ParseResult<(Vec<Expr>, usize)>)
    requires
        tokens_wf(t@),
        p < t@.len(),
    ensures
        exprs_res(r, args_at(t@, p as int, Seq::empty()), t@),
        advances(r, p as int, t@),
    decreases t@.len() - p, 16int,
{
    proof {
        lemma_len_fits(t);
    }
    let mut args: Vec<Expr> = Vec::new();
    if is_kind_rparen(&t[p].kind) {
        proof {
            lemma_next_in_range(t@, p as int);
            assert(exprs_view(args@) =~= Seq::<SExpr>::empty());
        }
        return Ok((args, p + 1));
    }
    let ghost target = args_at(t@, p as int, Seq::empty());
    let mut cur = p;
    proof {
        assert(exprs_view(args@) =~= Seq::<SExpr>::empty());
    }
    loop
        invariant
            tokens_wf(t@),
            t@.len() <= usize::MAX,
            p <= cur < t@.len(),
            target == args_at(t@, p as int, Seq::empty()),
            args_at(t@, cur as int, exprs_view(args@)) == target,
            cur == p ==> args@.len() == 0 && !(t@[p as int].kind is RParen),
            cur > p ==> args@.len() > 0,
        decreases t@.len() - cur,
    {
        proof {
            crate::ast::lemma_exprs_view_len(args@);
        }
        let (e, q) = parse_binary(t, cur, 0)?;
        proof {
            lemma_exprs_view_push(args@, e);
        }
        args.push(e);
        if is_kind_rparen(&t[q].kind) {
            proof { lemma_next_in_range(t@, q as int); }
            return Ok((args, q + 1));
        } else if is_kind_comma(&t[q].kind) {
            proof { lemma_next_in_range(t@, q as int); }
            cur = q + 1;
        } else {
            return Err(error_at(t, q, "expected ',' or ')' in arguments"));
        }
    }
}

fn parse_unary(t: &Vec<Token>, p: usize) -> (r: ParseResult<(Expr, usize)>)
    requires
        tokens_wf(t@),
        p < t@.len(),
    ensures
        expr_res(r, unary_at(t@, p as int), t@),
        advances(r, p as int, t@),
    decreases t@.len() - p, 1int,
{
    proof {
        lemma_len_fits(t);
    }
    let op = match &t[p].kind {
        TokenKind::Minus => UnOp::Neg,
        TokenKind::Bang => UnOp::Not,
        _ => {
            return parse_primary(t, p);
        },
    };
    proof { lemma_next_in_range(t@, p as int); }
    let (e, q) = parse_unary(t, p + 1)?;
    Ok((Expr::Unary { op, expr: Box::new(e) }, q))
}

fn parse_operand(t: &Vec<Token>, p: usize, level: usize) -> (r: ParseResult<(Expr, usize)>)
    requires
        tokens_wf(t@),
        p < t@.len(),
        level <= 5,
    ensures
        expr_res(r, operand_at(t@, p as int, level as int), t@),
        advances(r, p as int, t@),
    decreases t@.len() - p, 2 * (6 - level) + 2,
{
    if level == 5 {
        parse_unary(t, p)
    } else {
        parse_binary(t, p, level + 1)
    }
}

fn parse_binary(t: &Vec<Token>, p: usize, level: usize) -> (r: ParseResult<(Expr, usize)>)
    requires
        tokens_wf(t@),
        p < t@.len(),
        level <= 5,
    ensures
        expr_res(r, binary_at(t@, p as int, level as int), t@),
        advances(r, p as int, t@),
    decreases t@.len() - p, 2 * (6 - level) + 3,
{
    proof {
        lemma_len_fits(t);
    }
    let ghost target = binary_at(t@, p as int, level as int);
    let (mut lhs, mut cur) = parse_operand(t, p, level)?;
    loop
        invariant
            tokens_wf(t@),
            t@.len() <= usize::MAX,
            level <= 5,
            p < cur < t@.len(),
            target == binary_at(t@, p as int, level as int),
            binary_rest(t@, cur as int, level as int, expr_view(lhs)) == target,
        decreases t@.len() - cur,
    {
        let op = match binop_exec(level, &t[cur].kind) {
            None => {
                return Ok((lhs, cur));
            },
            Some(op) => op,
        };
        proof { lemma_next_in_range(t@, cur as int); }
        let (rhs, q) = parse_operand(t, cur + 1, level)?;
        lhs = Expr::Binary { op, lhs: Box::new(lhs), rhs: Box::new(rhs) };
        cur = q;
    }
}

fn parse_expr_semi(t: &Vec<Token>, p: usize) -> (r: ParseResult<(Expr, usize)>)
    requires
        tokens_wf(t@),
        p < t@.len(),
    ensures
        expr_res(r, expr_semi(t@, p as int), t@),
        advances(r, p as int, t@),
    decreases t@.len() - p, 16int,
{
    proof {
        lemma_len_fits(t);
    }
    let (e, q) = parse_binary(t, p, 0)?;
    if is_kind_semicolon(&t[q].kind) {
        proof { lemma_next_in_range(t@, q as int); }
        Ok((e, q + 1))
    } else {
        Err(error_at(t, q, "expected ';'"))
    }
}

fn parse_params(t: &Vec<Token>, p: usize) -> (r: ParseResult<(Vec<(String, Ty)>, usize)>)
    requires
        tokens_wf(t@),
        p < t@.len(),
    ensures
        match params_at(t@, p as int, Seq::empty()) {
            Ok((ps, q)) => r matches Ok((v, q2)) && v@ == ps && q2 == q,
            Err(i) => r matches Err(pe) && err_at(pe, t@, i),
        },
        advances(r, p as int, t@),
{
    proof {
        lemma_len_fits(t);
    }
    let mut params: Vec<(String, Ty)> = Vec::new();
    if is_kind_rparen(&t[p].kind) {
        proof { lemma_next_in_range(t@, p as int); }
        return Ok((params, p + 1));
    }
    let ghost target = params_at(t@, p as int, Seq::empty());
    let mut cur = p;
    loop
        invariant
            tokens_wf(t@),
            t@.len() <= usize::MAX,
            p <= cur < t@.len(),
            target == params_at(t@, p as int, Seq::empty()),
            params_at(t@, cur as int, params@) == target,
            cur == p ==> params@.len() == 0 && !(t@[p as int].kind is RParen),
            cur > p ==> params@.len() > 0,
        decreases t@.len() - cur,
    {
        let name = match &t[cur].kind {
            TokenKind::Ident(name) => name.clone(),
            _ => {
                return Err(error_at(t, cur, "expected a parameter name"));
            },
        };
        proof { lemma_next_in_range(t@, cur as int); }
        if !is_kind(&t[cur + 1].kind, 1) {
            return Err(error_at(t, cur + 1, "expected ':' after parameter name"));
        }
        proof { lemma_next_in_range(t@, cur + 1); }
        let (ty, q) = parse_type(t, cur + 2)?;
        params.push((name, ty));
        if is_kind_rparen(&t[q].kind) {
            proof { lemma_next_in_range(t@, q as int); }
            return Ok((params, q + 1));
        } else if is_kind_comma(&t[q].kind) {
            proof { lemma_next_in_range(t@, q as int); }
            cur = q + 1;
        } else {
            return Err(error_at(t, q, "expected ',' or ')' in parameters"));
        }
    }
}

fn parse_fn_decl(t: &Vec<Token>, p: usize) -> (r: ParseResult<(Stmt, usize)>)
    requires
        tokens_wf(t@),
        p < t@.len(),
        t@[p as int].kind is Fn,
    ensures
        stmt_res(r, fn_decl_at(t@, p as int), t@),
        advances(r, p as int, t@),
    decreases t@.len() - p, 17int,
{
    proof {
        lemma_len_fits(t);
        lemma_next_in_range(t@, p as int);
    }
    let name = match &t[p + 1].kind {
        TokenKind::Ident(name) => name.clone(),
        _ => {
            return Err(error_at(t, p + 1, "expected a function name"));
        },
    };
    proof { lemma_next_in_range(t@, p + 1); }
    if !is_kind(&t[p + 2].kind, 0) {
        return Err(error_at(t, p + 2, "expected '(' after function name"));
    }
    proof { lemma_next_in_range(t@, p + 2); }
    let (params, q) = parse_params(t, p + 3)?;
    let (ret, q2) = if is_kind(&t[q].kind, 7) {
        proof { lemma_next_in_range(t@, q as int); }
        if is_kind(&t[q + 1].kind, 8) {
            proof { lemma_next_in_range(t@, q + 1); }
            parse_type(t, q + 2)?
        } else {
            return Err(error_at(t, q + 1, "expected '->' before the return type"));
        }
    } else {
        (Ty::Nil, q)
    };
    let (body, q3) = parse_block(t, q2)?;
    Ok((Stmt::Fn { name, params, ret, body }, q3))
}

fn parse_stmt(t: &Vec<Token>, p: usize) -> (r: ParseResult<(Stmt, usize)>)
    requires
        tokens_wf(t@),
        p < t@.len(),
    ensures
        stmt_res(r, stmt_at(t@, p as int), t@),
        advances(r, p as int, t@),
    decreases t@.len() - p, 18int,
{
    proof {
        lemma_len_fits(t);
    }
    match &t[p].kind {
        TokenKind::Let => {
            proof { lemma_next_in_range(t@, p as int); }
            let name = match &t[p + 1].kind {
                TokenKind::Ident(name) => name.clone(),
                _ => {
                    return Err(error_at(t, p + 1, "expected a variable name after 'let'"));
                },
            };
            proof { lemma_next_in_range(t@, p + 1); }
            let (ty, q) = if is_kind(&t[p + 2].kind, 1) {
                proof { lemma_next_in_range(t@, p + 2); }
                let (ty, q) = parse_type(t, p + 3)?;
                (Some(ty), q)
            } else {
                (None, p + 2)
            };
            if !is_kind(&t[q].kind, 2) {
                return Err(error_at(t, q, "expected '=' in 'let'"));
            }
            proof { lemma_next_in_range(t@, q as int); }
            let (init, q2) = parse_expr_semi(t, q + 1)?;
            Ok((Stmt::Let { name, ty, init }, q2))
        },
        TokenKind::If => {
            proof { lemma_next_in_range(t@, p as int); }
            let (cond, q) = parse_binary(t, p + 1, 0)?;
            let (then, q2) = parse_block(t, q)?;
            if is_kind(&t[q2].kind, 5) {
                proof { lemma_next_in_range(t@, q2 as int); }
                if is_kind(&t[q2 + 1].kind, 6) {
                    let (s, q3) = parse_stmt(t, q2 + 1)?;
                    let mut els: Vec<Stmt> = Vec::new();
                    proof {
                        lemma_stmts_view_push(els@, s);
                        assert(stmts_view(els@) =~= Seq::<SStmt>::empty());
                    }
                    els.push(s);
                    proof {
                        assert(stmts_view(els@) =~= seq![stmt_view(s)]);
                    }
                    Ok((Stmt::If { cond, then, else_: Some(els) }, q3))
                } else {
                    let (els, q3) = parse_block(t, q2 + 1)?;
                    Ok((Stmt::If { cond, then, else_: Some(els) }, q3))
                }
            } else {
                Ok((Stmt::If { cond, then, else_: None }, q2))
            }
        },
        TokenKind::While => {
            proof { lemma_next_in_range(t@, p as int); }
            let (cond, q) = parse_binary(t, p + 1, 0)?;
            let (body, q2) = parse_block(t, q)?;
            Ok((Stmt::While { cond, body }, q2))
        },
        TokenKind::Return => {
            proof { lemma_next_in_range(t@, p as int); }
            if is_kind_semicolon(&t[p + 1].kind) {
                proof { lemma_next_in_range(t@, p + 1); }
                Ok((Stmt::Return(Expr::Nil), p + 2))
            } else {
                let (e, q) = parse_expr_semi(t, p + 1)?;
                Ok((Stmt::Return(e), q))
            }
        },
        TokenKind::Fn => parse_fn_decl(t, p),
        TokenKind::Ident(name) => {
            proof { lemma_next_in_range(t@, p as int); }
            if is_kind(&t[p + 1].kind, 2) {
                proof { lemma_next_in_range(t@, p + 1); }
                let (value, q) = parse_expr_semi(t, p + 2)?;
                Ok((Stmt::Assign { name: name.clone(), value }, q))
            } else {
                let (e, q) = parse_expr_semi(t, p)?;
                Ok((Stmt::ExprStmt(e), q))
            }
        },
        _ => {
            let (e, q) = parse_expr_semi(t, p)?;
            Ok((Stmt::ExprStmt(e), q))
        },
    }
}

fn parse_block(t: &Vec<Token>, p: usize) -> (r: ParseResult<(Vec<Stmt>, usize)>)
    requires
        tokens_wf(t@),
        p < t@.len(),
    ensures
        stmts_res(r, block_at(t@, p as int), t@),
        advances(r, p as int, t@),
    decreases t@.len() - p, 19int,
{
    proof {
        lemma_len_fits(t);
    }
    if !is_kind(&t[p].kind, 3) {
        return Err(error_at(t, p, "expected '{'"));
    }
    proof { lemma_next_in_range(t@, p as int); }
    parse_items(t, p + 1)
}

fn parse_items(t: &Vec<Token>, p: usize) -> (r: ParseResult<(Vec<Stmt>, usize)>)
    requires
        tokens_wf(t@),
        p < t@.len(),
    ensures
        stmts_res(r, items_at(t@, p as int, Seq::empty()), t@),
        advances(r, p as int, t@),
    decreases t@.len() - p, 20int,
{
    proof {
        lemma_len_fits(t);
    }
    let ghost target = items_at(t@, p as int, Seq::empty());
    let mut stmts: Vec<Stmt> = Vec::new();
    let mut cur = p;
    proof {
        assert(stmts_view(stmts@) =~= Seq::<SStmt>::empty());
    }
    loop
        invariant
            tokens_wf(t@),
            t@.len() <= usize::MAX,
            p <= cur < t@.len(),
            target == items_at(t@, p as int, Seq::empty()),
            items_at(t@, cur as int, stmts_view(stmts@)) == target,
        decreases t@.len() - cur,
    {
        if is_kind(&t[cur].kind, 4) {
            proof { lemma_next_in_range(t@, cur as int); }
            return Ok((stmts, cur + 1));
        }
        let (st, q) = parse_stmt(t, cur)?;
        proof {
            lemma_stmts_view_push(stmts@, st);
        }
        stmts.push(st);
        cur = q;
    }
}

fn parse_program_from(t: &Vec<Token>, p: usize) -> (r: ParseResult<(Vec<Stmt>, usize)>)
    requires
        tokens_wf(t@),
        p < t@.len(),
    ensures
        stmts_res(r, program_at(t@, p as int, Seq::empty()), t@),
        r matches Ok((_, q)) ==> p <= q < t@.len(),
{
    proof {
        lemma_len_fits(t);
    }
    let ghost target = program_at(t@, p as int, Seq::empty());
    let mut stmts: Vec<Stmt> = Vec::new();
    let mut cur = p;
    proof {
        assert(stmts_view(stmts@) =~= Seq::<SStmt>::empty());
    }
    loop
        invariant
            tokens_wf(t@),
            t@.len() <= usize::MAX,
            p <= cur < t@.len(),
            target == program_at(t@, p as int, Seq::empty()),
            program_at(t@, cur as int, stmts_view(stmts@)) == target,
        decreases t@.len() - cur,
    {
        if is_kind(&t[cur].kind, 9) {
            return Ok((stmts, cur));
        }
        let (st, q) = parse_stmt(t, cur)?;
        proof {
            lemma_stmts_view_push(stmts@, st);
        }
        stmts.push(st);
        cur = q;
    }
}

// ---------------------------------------------------------------------------
// The parser

/// The position of a token kind's variant in the declaration of `TokenKind`.
pub open spec fn variant_index(k: TokenKind) -> int {
    match k {
        TokenKind::Int(_) => 0,
        TokenKind::Float(_) => 1,
        TokenKind::Str(_) => 2,
        TokenKind::Ident(_) => 3,
        TokenKind::Plus => 4,
        TokenKind::Minus => 5,
        TokenKind::Star => 6,
        TokenKind::Slash => 7,
        TokenKind::Percent => 8,
        TokenKind::LParen => 9,
        TokenKind::RParen => 10,
        TokenKind::LBrace => 11,
        TokenKind::RBrace => 12,
        TokenKind::Comma => 13,
        TokenKind::Semicolon => 14,
        TokenKind::Colon => 15,
        TokenKind::Bang => 16,
        TokenKind::Equal => 17,
        TokenKind::Less => 18,
        TokenKind::Greater => 19,
        TokenKind::BangEqual => 20,
        TokenKind::EqualEqual => 21,
        TokenKind::LessEqual => 22,
        TokenKind::GreaterEqual => 23,
        TokenKind::AmpAmp => 24,
        TokenKind::PipePipe => 25,
        TokenKind::Let => 26,
        TokenKind::Fn => 27,
        TokenKind::If => 28,
        TokenKind::Else => 29,
        TokenKind::While => 30,
        TokenKind::Return => 31,
        TokenKind::True => 32,
        TokenKind::False => 33,
        TokenKind::Nil => 34,
        TokenKind::Eof => 35,
    }
}

fn variant_of(k: &TokenKind) -> (r: u8)
    ensures
        r as int == variant_index(*k),
{
    match k {
        TokenKind::Int(_) => 0,
        TokenKind::Float(_) => 1,
        TokenKind::Str(_) => 2,
        TokenKind::Ident(_) => 3,
        TokenKind::Plus => 4,
        TokenKind::Minus => 5,
        TokenKind::Star => 6,
        TokenKind::Slash => 7,
        TokenKind::Percent => 8,
        TokenKind::LParen => 9,
        TokenKind::RParen => 10,
        TokenKind::LBrace => 11,
        TokenKind::RBrace => 12,
        TokenKind::Comma => 13,
        TokenKind::Semicolon => 14,
        TokenKind::Colon => 15,
        TokenKind::Bang => 16,
        TokenKind::Equal => 17,
        TokenKind::Less => 18,
        TokenKind::Greater => 19,
        TokenKind::BangEqual => 20,
        TokenKind::EqualEqual => 21,
        TokenKind::LessEqual => 22,
        TokenKind::GreaterEqual => 23,
        TokenKind::AmpAmp => 24,
        TokenKind::PipePipe => 25,
        TokenKind::Let => 26,
        TokenKind::Fn => 27,
        TokenKind::If => 28,
        TokenKind::Else => 29,
        TokenKind::While => 30,
        TokenKind::Return => 31,
        TokenKind::True => 32,
        TokenKind::False => 33,
        TokenKind::Nil => 34,
        TokenKind::Eof => 35,
    }
}

pub struct Parser {
    tokens: Vec<Token>,
    pos: usize,
}

impl Parser {
    /// The tokens being parsed.
    pub closed spec fn tokens(&self) -> Seq<Token> {
        self.tokens@
    }

    /// The index of the next token.
    pub closed spec fn position(&self) -> int {
        self.pos as int
    }

    /// The tokens end with `Eof`, and the position is on a token.
    pub closed spec fn wf(&self) -> bool {
        tokens_wf(self.tokens@) && self.pos < self.tokens@.len()
    }

    /// A parser over the tokens of `src`, which must lex without an unclosed
    /// string literal.
    pub fn new(src: &str) -> (p: Self)
        requires
            src.spec_bytes().len() < usize::MAX,
            source_lexable(src),
        ensures
            p.wf(),
            p.position() == 0,
            crate::lexer::lexes_to(src, p.tokens()),
    {
        let mut lexer = Lexer::new(src);
        let tokens = lexer.tokenize();
        Self { tokens, pos: 0 }
    }

    fn peek(&self) -> (t: &Token)
        requires
            self.wf(),
        ensures
            *t == self.tokens()[self.position()],
    {
        &self.tokens[self.pos]
    }

    fn is_at_end(&self) -> (b: bool)
        requires
            self.wf(),
        ensures
            b == (self.tokens()[self.position()].kind is Eof),
    {
        is_kind(&self.peek().kind, 9)
    }

    /// Move past the next token unless it is `Eof`; the token moved past (or
    /// the one before an `Eof` at the position).
    fn advance(&mut self) -> (t: Token)
        requires
            old(self).wf(),
            old(self).position() > 0 || !(old(self).tokens()[old(self).position()].kind is Eof),
        ensures
            final(self).wf(),
            final(self).tokens() == old(self).tokens(),
            final(self).position() == if old(self).tokens()[old(self).position()].kind is Eof {
                old(self).position()
            } else {
                old(self).position() + 1
            },
            t == final(self).tokens()[final(self).position() - 1],
    {
        if !self.is_at_end() {
            proof {
                lemma_next_in_range(self.tokens@, self.pos as int);
                lemma_len_fits(&self.tokens);
            }
            self.pos += 1;
        }
        let prev = &self.tokens[self.pos - 1];
        Token::new(copy_kind(&prev.kind), prev.line, prev.col)
    }

    /// Whether the next token has the same variant as `kind`.
    fn check(&self, kind: &TokenKind) -> (b: bool)
        requires
            self.wf(),
        ensures
            b == (variant_index(self.tokens()[self.position()].kind) == variant_index(*kind)),
    {
        variant_of(&self.peek().kind) == variant_of(kind)
    }

    fn peek_is(&self, kind: &TokenKind) -> (b: bool)
        requires
            self.wf(),
        ensures
            b == (variant_index(self.tokens()[self.position()].kind) == variant_index(*kind)),
    {
        self.check(kind)
    }

    /// Move past the next token when it has the variant of `kind`.
    fn match_tok(&mut self, kind: &TokenKind) -> (b: bool)
        requires
            old(self).wf(),
            old(self).position() > 0 || !(*kind is Eof) || !(old(self).tokens()[old(
                self,
            ).position()].kind is Eof),
        ensures
            final(self).wf(),
            final(self).tokens() == old(self).tokens(),
            b == (variant_index(old(self).tokens()[old(self).position()].kind) == variant_index(*kind)),
            final(self).position() == old(self).position() + if b && !(old(
                self,
            ).tokens()[old(self).position()].kind is Eof) {
                1int
            } else {
                0int
            },
    {
        if self.check(kind) {
            self.advance();
            true
        } else {
            false
        }
    }

    /// Move past the next token when it has the variant of `kind`, or fail at it.
    fn expect(&mut self, kind: &TokenKind, msg: &str) -> (r: ParseResult<Token>)
        requires
            old(self).wf(),
            old(self).position() > 0 || !(*kind is Eof) || !(old(self).tokens()[old(
                self,
            ).position()].kind is Eof),
        ensures
            final(self).wf(),
            final(self).tokens() == old(self).tokens(),
            match r {
                Ok(t) => variant_index(old(self).tokens()[old(self).position()].kind) == variant_index(*kind)
                    && final(self).position() == (if old(self).tokens()[old(self).position()].kind is Eof {
                    old(self).position()
                } else {
                    old(self).position() + 1
                }) && t == old(self).tokens()[final(self).position() - 1],
                Err(e) => variant_index(old(self).tokens()[old(self).position()].kind) != variant_index(*kind)
                    && final(self).position() == old(self).position()
                    && err_at(e, old(self).tokens(), (old(self).position(), msg@)),
            },
    {
        if self.check(kind) {
            Ok(self.advance())
        } else {
            Err(error_at(&self.tokens, self.pos, msg))
        }
    }

    /// Parse the statements from the position to the end of input.
    pub fn parse_program(&mut self) -> (r: ParseResult<Vec<Stmt>>)
        requires
            old(self).wf(),
        ensures
            final(self).wf(),
            final(self).tokens() == old(self).tokens(),
            match program_at(old(self).tokens(), old(self).position(), Seq::empty()) {
                Ok((ss, q)) => r matches Ok(v) && stmts_view(v@) == ss && final(self).position() == q,
                Err(i) => r matches Err(e) && err_at(e, old(self).tokens(), i),
            },
    {
        match parse_program_from(&self.tokens, self.pos) {
            Ok((stmts, q)) => {
                self.pos = q;
                Ok(stmts)
            },
            Err(e) => Err(e),
        }
    }
}

/// A copy of a token kind.
fn copy_kind(k: &TokenKind) -> (r: TokenKind)
    ensures
        r == *k,
{
    match k {
        TokenKind::Int(n) => TokenKind::Int(*n),
        TokenKind::Float(b) => TokenKind::Float(*b),
        TokenKind::Str(s) => TokenKind::Str(s.clone()),
        TokenKind::Ident(s) => TokenKind::Ident(s.clone()),
        TokenKind::Plus => TokenKind::Plus,
        TokenKind::Minus => TokenKind::Minus,
        TokenKind::Star => TokenKind::Star,
        TokenKind::Slash => TokenKind::Slash,
        TokenKind::Percent => TokenKind::Percent,
        TokenKind::LParen => TokenKind::LParen,
        TokenKind::RParen => TokenKind::RParen,
        TokenKind::LBrace => TokenKind::LBrace,
        TokenKind::RBrace => TokenKind::RBrace,
        TokenKind::Comma => TokenKind::Comma,
        TokenKind::Semicolon => TokenKind::Semicolon,
        TokenKind::Colon => TokenKind::Colon,
        TokenKind::Bang => TokenKind::Bang,
        TokenKind::Equal => TokenKind::Equal,
        TokenKind::Less => TokenKind::Less,
        TokenKind::Greater => TokenKind::Greater,
        TokenKind::BangEqual => TokenKind::BangEqual,
        TokenKind::EqualEqual => TokenKind::EqualEqual,
        TokenKind::LessEqual => TokenKind::LessEqual,
        TokenKind::GreaterEqual => TokenKind::GreaterEqual,
        TokenKind::AmpAmp => TokenKind::AmpAmp,
        TokenKind::PipePipe => TokenKind::PipePipe,
        TokenKind::Let => TokenKind::Let,
        TokenKind::Fn => TokenKind::Fn,
        TokenKind::If => TokenKind::If,
        TokenKind::Else => TokenKind::Else,
        TokenKind::While => TokenKind::While,
        TokenKind::Return => TokenKind::Return,
        TokenKind::True => TokenKind::True,
        TokenKind::False => TokenKind::False,
        TokenKind::Nil => TokenKind::Nil,
        TokenKind::Eof => TokenKind::Eof,
    }
}

} // verus!
