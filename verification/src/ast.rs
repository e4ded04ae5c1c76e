//! Abstract syntax of the CircomV1 witness-generation functions.

use vstd::prelude::*;
use crate::field::Fr;

verus! {

/// A parsed template or function: a sequence of statements.
#[derive(Debug)]
pub struct Function {
    pub body: Vec<Stmt>,
}

#[derive(Debug)]
pub enum Stmt {
    Block(Vec<Stmt>),
    Expr(Expr),
    Assert { lhs: Expr, rhs: Expr, loc: String },
    If { cond: Expr, then: Box<Stmt>, else_: Option<Box<Stmt>> },
    While { cond: Expr, body: Box<Stmt> },
    For { init: Expr, cond: Expr, update: Expr, body: Box<Stmt> },
    Return(Expr),
}

#[derive(Debug, Clone, Copy, PartialEq, Eq, Structural)]
pub enum BinOpKind {
    Add,
    Sub,
    Mul,
    Mod,
    Div,
    Eq,
    Neq,
    Lt,
    Gt,
    Shl,
    Shr,
    And,
}

#[derive(Debug)]
pub enum Expr {
    NumberLit(Fr),
    /// The field order `__P__`.
    PrimeConst,
    /// The mask `__MASK__`.
    MaskConst,
    ArrayLit(Vec<Expr>),
    GetSignal(String, Vec<Expr>),
    GetPin(String, Vec<Expr>, String, Vec<Expr>),
    GetVar(String, Vec<Expr>),
    SetSignal(String, Vec<Expr>, Box<Expr>),
    SetVar(String, Vec<Expr>, Box<Expr>),
    SetPin(String, Vec<Expr>, String, Vec<Expr>, Box<Expr>),
    CallFunction(String, Vec<Expr>),
    BinOp { op: BinOpKind, lhs: Box<Expr>, rhs: Box<Expr> },
    Inverse(Box<Expr>, Box<Expr>),
    ModPow(Box<Expr>, Box<Expr>, Box<Expr>),
    /// Short-circuit `||`.
    LogicalOr(Box<Expr>, Box<Expr>),
    Ternary { cond: Box<Expr>, then: Box<Expr>, else_: Box<Expr> },
}

/// Size of an expression, counting every node.
pub open spec fn expr_size(e: Expr) -> nat
    decreases e,
{
    match e {
        Expr::ArrayLit(xs) => 1 + exprs_size(xs@),
        Expr::GetSignal(_, s) => 1 + exprs_size(s@),
        Expr::GetPin(_, cs, _, ss) => 1 + exprs_size(cs@) + exprs_size(ss@),
        Expr::GetVar(_, s) => 1 + exprs_size(s@),
        Expr::SetSignal(_, s, v) => 1 + exprs_size(s@) + expr_size(*v),
        Expr::SetVar(_, s, v) => 1 + exprs_size(s@) + expr_size(*v),
        Expr::SetPin(_, cs, _, ss, v) => 1 + exprs_size(cs@) + exprs_size(ss@) + expr_size(*v),
        Expr::CallFunction(_, xs) => 1 + exprs_size(xs@),
        Expr::BinOp { op: _, lhs, rhs } => 1 + expr_size(*lhs) + expr_size(*rhs),
        Expr::Inverse(a, b) => 1 + expr_size(*a) + expr_size(*b),
        Expr::ModPow(a, b, c) => 1 + expr_size(*a) + expr_size(*b) + expr_size(*c),
        Expr::LogicalOr(a, b) => 1 + expr_size(*a) + expr_size(*b),
        Expr::Ternary { cond, then, else_ } => 1 + expr_size(*cond) + expr_size(*then) + expr_size(*else_),
        _ => 1,
    }
}

/// Size of a list of expressions.
pub open spec fn exprs_size(xs: Seq<Expr>) -> nat
    decreases xs,
{
    if xs.len() == 0 {
        0
    } else {
        1 + expr_size(xs[0]) + exprs_size(xs.drop_first())
    }
}

/// Size of a statement, counting every node.
pub open spec fn stmt_size(s: Stmt) -> nat
    decreases s,
{
    match s {
        Stmt::Block(ss) => 1 + stmts_size(ss@),
        Stmt::Expr(e) => 1 + expr_size(e),
        Stmt::Assert { lhs, rhs, loc: _ } => 1 + expr_size(lhs) + expr_size(rhs),
        Stmt::If { cond, then, else_ } => 1 + expr_size(cond) + stmt_size(*then) + match else_ {
            Some(e) => stmt_size(*e),
            None => 0,
        },
        Stmt::While { cond, body } => 1 + expr_size(cond) + stmt_size(*body),
        Stmt::For { init, cond, update, body } => 1 + expr_size(init) + expr_size(cond) + expr_size(update) + stmt_size(*body),
        Stmt::Return(e) => 1 + expr_size(e),
    }
}

/// Size of a list of statements.
pub open spec fn stmts_size(ss: Seq<Stmt>) -> nat
    decreases ss,
{
    if ss.len() == 0 {
        0
    } else {
        1 + stmt_size(ss[0]) + stmts_size(ss.drop_first())
    }
}

} // verus!
