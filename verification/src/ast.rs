//! The syntax tree, and its view with sequences in place of vectors.

use vstd::prelude::*;

verus! {

#[derive(Debug, Clone, Copy, PartialEq, Eq)]
pub enum BinOp {
    Add,
    Sub,
    Mul,
    Div,
    Mod,
    Eq,
    NotEq,
    Lt,
    LtEq,
    Gt,
    GtEq,
    And,
    Or,
}

#[derive(Debug, Clone, Copy, PartialEq, Eq)]
pub enum UnOp {
    Neg,
    Not,
}

#[derive(Debug, Clone, PartialEq)]
pub enum Ty {
    Int,
    Float,
    Bool,
    Str,
    Nil,
    Named(String),
}

/// An expression. A float literal holds the bit pattern of its binary64 value.
#[derive(Debug, PartialEq)]
pub enum Expr {
    Int(i64),
    Float(u64),
    Str(String),
    Bool(bool),
    Nil,
    Var(String),
    Binary { op: BinOp, lhs: Box<Expr>, rhs: Box<Expr> },
    Unary { op: UnOp, expr: Box<Expr> },
    Call { callee: String, args: Vec<Expr> },
    Group(Box<Expr>),
}

#[derive(Debug, PartialEq)]
pub enum Stmt {
    Let { name: String, ty: Option<Ty>, init: Expr },
    Assign { name: String, value: Expr },
    ExprStmt(Expr),
    Return(Expr),
    If { cond: Expr, then: Vec<Stmt>, else_: Option<Vec<Stmt>> },
    While { cond: Expr, body: Vec<Stmt> },
    Fn { name: String, params: Vec<(String, Ty)>, ret: Ty, body: Vec<Stmt> },
}

/// An expression with sequences in place of vectors.
pub enum SExpr {
    Int(i64),
    Float(u64),
    Str(String),
    Bool(bool),
    Nil,
    Var(String),
    Binary { op: BinOp, lhs: Box<SExpr>, rhs: Box<SExpr> },
    Unary { op: UnOp, expr: Box<SExpr> },
    Call { callee: String, args: Seq<SExpr> },
    Group(Box<SExpr>),
}

/// A statement with sequences in place of vectors.
pub enum SStmt {
    Let { name: String, ty: Option<Ty>, init: SExpr },
    Assign { name: String, value: SExpr },
    ExprStmt(SExpr),
    Return(SExpr),
    If { cond: SExpr, then: Seq<SStmt>, else_: Option<Seq<SStmt>> },
    While { cond: SExpr, body: Seq<SStmt> },
    Fn { name: String, params: Seq<(String, Ty)>, ret: Ty, body: Seq<SStmt> },
}

pub open spec fn expr_view(e: Expr) -> SExpr
    decreases e, 1int,
{
    match e {
        Expr::Int(n) => SExpr::Int(n),
        Expr::Float(b) => SExpr::Float(b),
        Expr::Str(s) => SExpr::Str(s),
        Expr::Bool(b) => SExpr::Bool(b),
        Expr::Nil => SExpr::Nil,
        Expr::Var(s) => SExpr::Var(s),
        Expr::Binary { op, lhs, rhs } => SExpr::Binary {
            op,
            lhs: Box::new(expr_view(*lhs)),
            rhs: Box::new(expr_view(*rhs)),
        },
        Expr::Unary { op, expr } => SExpr::Unary { op, expr: Box::new(expr_view(*expr)) },
        Expr::Call { callee, args } => SExpr::Call { callee, args: exprs_view(args@) },
        Expr::Group(inner) => SExpr::Group(Box::new(expr_view(*inner))),
    }
}

pub open spec fn exprs_view(s: Seq<Expr>) -> Seq<SExpr>
    decreases s, 0int,
{
    if s.len() == 0 {
        Seq::empty()
    } else {
        exprs_view(s.drop_last()).push(expr_view(s.last()))
    }
}

pub open spec fn stmt_view(st: Stmt) -> SStmt
    decreases st, 1int,
{
    match st {
        Stmt::Let { name, ty, init } => SStmt::Let { name, ty, init: expr_view(init) },
        Stmt::Assign { name, value } => SStmt::Assign { name, value: expr_view(value) },
        Stmt::ExprStmt(e) => SStmt::ExprStmt(expr_view(e)),
        Stmt::Return(e) => SStmt::Return(expr_view(e)),
        Stmt::If { cond, then, else_ } => SStmt::If {
            cond: expr_view(cond),
            then: stmts_view(then@),
            else_: match else_ {
                Some(v) => Some(stmts_view(v@)),
                None => None,
            },
        },
        Stmt::While { cond, body } => SStmt::While { cond: expr_view(cond), body: stmts_view(body@) },
        Stmt::Fn { name, params, ret, body } => SStmt::Fn {
            name,
            params: params@,
            ret,
            body: stmts_view(body@),
        },
    }
}

pub open spec fn stmts_view(s: Seq<Stmt>) -> Seq<SStmt>
    decreases s, 0int,
{
    if s.len() == 0 {
        Seq::empty()
    } else {
        stmts_view(s.drop_last()).push(stmt_view(s.last()))
    }
}

pub proof fn lemma_exprs_view_push(s: Seq<Expr>, e: Expr)
    ensures
        exprs_view(s.push(e)) == exprs_view(s).push(expr_view(e)),
        exprs_view(s).len() == s.len(),
    decreases s.len(),
{
    assert(s.push(e).drop_last() =~= s);
    lemma_exprs_view_len(s);
}

pub proof fn lemma_exprs_view_len(s: Seq<Expr>)
    ensures
        exprs_view(s).len() == s.len(),
    decreases s.len(),
{
    if s.len() > 0 {
        lemma_exprs_view_len(s.drop_last());
    }
}

pub proof fn lemma_stmts_view_push(s: Seq<Stmt>, st: Stmt)
    ensures
        stmts_view(s.push(st)) == stmts_view(s).push(stmt_view(st)),
{
    assert(s.push(st).drop_last() =~= s);
}

pub proof fn lemma_stmts_view_len(s: Seq<Stmt>)
    ensures
        stmts_view(s).len() == s.len(),
    decreases s.len(),
{
    if s.len() > 0 {
        lemma_stmts_view_len(s.drop_last());
    }
}

pub proof fn lemma_stmts_view_index(s: Seq<Stmt>, i: int)
    requires
        0 <= i < s.len(),
    ensures
        stmts_view(s).len() == s.len(),
        stmts_view(s)[i] == stmt_view(s[i]),
    decreases s.len(),
{
    lemma_stmts_view_len(s);
    if i < s.len() - 1 {
        lemma_stmts_view_index(s.drop_last(), i);
    }
}

pub proof fn lemma_exprs_view_index(s: Seq<Expr>, i: int)
    requires
        0 <= i < s.len(),
    ensures
        exprs_view(s).len() == s.len(),
        exprs_view(s)[i] == expr_view(s[i]),
    decreases s.len(),
{
    lemma_exprs_view_len(s);
    if i < s.len() - 1 {
        lemma_exprs_view_index(s.drop_last(), i);
    }
}

/// A copy of a type.
pub fn copy_ty(ty: &Ty) -> (r: Ty)
    ensures
        r == *ty,
{
    match ty {
        Ty::Int => Ty::Int,
        Ty::Float => Ty::Float,
        Ty::Bool => Ty::Bool,
        Ty::Str => Ty::Str,
        Ty::Nil => Ty::Nil,
        Ty::Named(s) => Ty::Named(s.clone()),
    }
}

} // verus!
