use vstd::prelude::*;
use crate::common::Identifier;

verus! {

/// The binary operators of the language.
#[derive(Debug, Clone, Copy, PartialEq, Eq, Hash)]
pub enum Op {
    Add,
    Sub,
    Mul,
    Div,
    Min,
    Max,
    Lt,
    Gt,
    Eq,
    And,
    Or,
}

/// An expression of the language.
#[derive(Debug, PartialEq, Eq, Hash)]
pub enum Expr {
    Value(i64),
    BinOp(Op, Box<Expr>, Box<Expr>),
    If(Box<Expr>, Box<Expr>, Box<Expr>),
    Arg(u32),
    Call(Identifier, Vec<Expr>),
    Delay(Box<Expr>, u32),
}

/// A program file: what it imports and the expression it evaluates to.
#[derive(Debug, PartialEq, Eq, Hash)]
pub struct File {
    pub imports: Vec<Identifier>,
    pub expression: Expr,
}

} // verus!
