use vstd::prelude::*;
use crate::ast::{ErrorKind, Expr, ExprModel, Op};
use crate::env::{lookup, Env};

verus! {

pub open spec fn abs(a: int) -> int {
    if a < 0 {
        -a
    } else {
        a
    }
}

/// Integer division rounded toward zero.
pub open spec fn trunc_div(a: int, b: int) -> int {
    if (a < 0) == (b < 0) {
        abs(a) / abs(b)
    } else {
        -(abs(a) / abs(b))
    }
}

/// The exact value of `a op b`, for a nonzero divisor.
pub open spec fn apply_int(op: Op, a: int, b: int) -> int {
    match op {
        Op::Add => a + b,
        Op::Sub => a - b,
        Op::Mul => a * b,
        Op::Div => trunc_div(a, b),
    }
}

/// `a op b` as an `i64`: division by zero and results out of range are errors.
pub open spec fn combine(op: Op, a: i64, b: i64) -> Result<i64, ErrorKind> {
    if op == Op::Div && b == 0 {
        Err(ErrorKind::DivisionByZero)
    } else if i64::MIN <= apply_int(op, a as int, b as int) <= i64::MAX {
        Ok(apply_int(op, a as int, b as int) as i64)
    } else {
        Err(ErrorKind::Overflow)
    }
}

/// The value of an expression tree under a variable mapping; the left
/// operand is evaluated first, so its error is the one reported.
pub open spec fn eval(e: ExprModel, vars: Map<Seq<char>, i64>) -> Result<i64, ErrorKind>
    decreases e,
{
    match e {
        ExprModel::Number(n) => Ok(n),
        ExprModel::Variable(name) => match lookup(vars, name) {
            Some(v) => Ok(v),
            None => Err(ErrorKind::UndefinedVariable),
        },
        ExprModel::Binary(op, l, r) => match eval(*l, vars) {
            Err(k) => Err(k),
            Ok(a) => match eval(*r, vars) {
                Err(k) => Err(k),
                Ok(b) => combine(op, a, b),
            },
        },
    }
}

/// Applies `op` to two values.
pub fn combine_values(op: Op, a: i64, b: i64) -> (r: Result<i64, ErrorKind>)
    ensures
        r == combine(op, a, b),
{
    let x = a as i128;
    let y = b as i128;
    let v: i128 = match op {
        Op::Add => x + y,
        Op::Sub => x - y,
        Op::Mul => {
            assert(-0x4000_0000_0000_0000_0000_0000_0000_0000 <= x * y <= 0x4000_0000_0000_0000_0000_0000_0000_0000) by (nonlinear_arith)
                requires
                    -0x8000_0000_0000_0000 <= x < 0x8000_0000_0000_0000,
                    -0x8000_0000_0000_0000 <= y < 0x8000_0000_0000_0000,
            ;
            x * y
        },
        Op::Div => {
            if y == 0 {
                return Err(ErrorKind::DivisionByZero);
            }
            let ax: i128 = if x < 0 { -x } else { x };
            let ay: i128 = if y < 0 { -y } else { y };
            let q: i128 = ax / ay;
            assert(q == abs(x as int) / abs(y as int));
            assert(0 <= q <= ax) by (nonlinear_arith)
                requires q == ax / ay, ax >= 0, ay > 0;
            if (x < 0) == (y < 0) {
                q
            } else {
                -q
            }
        },
    };
    if v < i64::MIN as i128 || v > i64::MAX as i128 {
        Err(ErrorKind::Overflow)
    } else {
        Ok(v as i64)
    }
}

/// Evaluates an expression tree against the variables of `vars`.
pub fn evaluate_expr(expr: &Expr, vars: &Env) -> (r: Result<i64, ErrorKind>)
    ensures
        r == eval(expr.model(), vars@),
    decreases expr,
{
    let (op, l, r) = match expr {
        Expr::Number(n) => {
            return Ok(*n);
        },
        Expr::Variable(name) => {
            return match vars.get(name) {
                Some(v) => Ok(v),
                None => Err(ErrorKind::UndefinedVariable),
            };
        },
        Expr::Add(l, r) => (Op::Add, l, r),
        Expr::Sub(l, r) => (Op::Sub, l, r),
        Expr::Mul(l, r) => (Op::Mul, l, r),
        Expr::Div(l, r) => (Op::Div, l, r),
    };
    let a = match evaluate_expr(l, vars) {
        Ok(a) => a,
        Err(k) => {
            return Err(k);
        },
    };
    let b = match evaluate_expr(r, vars) {
        Ok(b) => b,
        Err(k) => {
            return Err(k);
        },
    };
    combine_values(op, a, b)
}

} // verus!
