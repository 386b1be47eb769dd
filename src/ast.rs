use vstd::prelude::*;

verus! {

/// A binary arithmetic operator.
#[derive(Clone, Copy, Debug, PartialEq, Eq, Structural)]
pub enum Op {
    Add,
    Sub,
    Mul,
    Div,
}

/// The ways in which parsing or evaluation can fail.
#[derive(Clone, Copy, Debug, PartialEq, Eq, Structural)]
pub enum ErrorKind {
    /// An unmatched `(` or `)`.
    MismatchedParentheses,
    /// An operator without two operands, or not exactly one expression left.
    InvalidExpression,
    /// A variable that was never declared or assigned.
    UndefinedVariable,
    /// A divisor that evaluates to zero.
    DivisionByZero,
    /// An intermediate value outside the range of `i64`.
    Overflow,
}

/// An expression tree: every binary node owns its two children.
#[derive(Debug)]
pub enum Expr {
    Number(i64),
    Variable(String),
    Add(Box<Expr>, Box<Expr>),
    Sub(Box<Expr>, Box<Expr>),
    Mul(Box<Expr>, Box<Expr>),
    Div(Box<Expr>, Box<Expr>),
}

/// The mathematical value of an expression tree: names are character sequences.
pub enum ExprModel {
    Number(i64),
    Variable(Seq<char>),
    Binary(Op, Box<ExprModel>, Box<ExprModel>),
}

impl Expr {
    pub open spec fn model(&self) -> ExprModel
        decreases self,
    {
        match self {
            Expr::Number(n) => ExprModel::Number(*n),
            Expr::Variable(name) => ExprModel::Variable(name@),
            Expr::Add(l, r) => ExprModel::Binary(Op::Add, Box::new(l.model()), Box::new(r.model())),
            Expr::Sub(l, r) => ExprModel::Binary(Op::Sub, Box::new(l.model()), Box::new(r.model())),
            Expr::Mul(l, r) => ExprModel::Binary(Op::Mul, Box::new(l.model()), Box::new(r.model())),
            Expr::Div(l, r) => ExprModel::Binary(Op::Div, Box::new(l.model()), Box::new(r.model())),
        }
    }

    /// Builds the node for `op` over two owned children.
    pub fn binary(op: Op, left: Expr, right: Expr) -> (r: Expr)
        ensures
            r.model() == ExprModel::Binary(op, Box::new(left.model()), Box::new(right.model())),
    {
        match op {
            Op::Add => Expr::Add(Box::new(left), Box::new(right)),
            Op::Sub => Expr::Sub(Box::new(left), Box::new(right)),
            Op::Mul => Expr::Mul(Box::new(left), Box::new(right)),
            Op::Div => Expr::Div(Box::new(left), Box::new(right)),
        }
    }
}

} // verus!
