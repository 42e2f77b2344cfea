//! Four ways to shape the same expression enum, compared by the size of one node.

use vstd::prelude::*;

verus! {

pub struct Block {
    stmts: Vec<Expr1>,
    tail: Option<Box<Expr1>>,
}

/// 1. Textbook: `String` names, `If` holds its blocks inline.
pub enum Expr1 {
    Int(i64),
    Var(String),
    Binary(u8, Box<Expr1>, Box<Expr1>),
    Call(Box<Expr1>, Vec<Expr1>),
    If(Box<Expr1>, Block, Option<Block>),
}

/// 2. Box the rare, large variant.
pub struct IfExpr {
    cond: Expr2,
    then: Vec<Expr2>,
    els: Option<Vec<Expr2>>,
}

pub enum Expr2 {
    Int(i64),
    Var(String),
    Binary(u8, Box<Expr2>, Box<Expr2>),
    Call(Box<Expr2>, Vec<Expr2>),
    If(Box<IfExpr>),
}

/// 3. Intern names (a `u32` symbol) and box the call's argument list too.
pub struct CallExpr {
    callee: Expr3,
    args: Vec<Expr3>,
}

pub enum Expr3 {
    Int(i64),
    Var(u32),
    Binary(u8, Box<Expr3>, Box<Expr3>),
    Call(Box<CallExpr>),
    If(Box<IfExpr>),
}

/// 4. Arena: children are `u32` indices into one `Vec<Expr4>`; big literals go to a side table.
pub enum Expr4 {
    Int(u32),
    Var(u32),
    Binary(u8, u32, u32),
    Call(u32, u32),
    If(u32),
}

} // verus!
