use vstd::prelude::*;
use crate::ast::{ErrorKind, Expr, ExprModel, Op};
use crate::lexer::{lex, tokenize, Token, TokenModel};

verus! {

/// An entry of the operator stack: an operator waiting for its right operand, or an open parenthesis.
#[derive(Clone, Copy, Debug, PartialEq, Eq, Structural)]
pub enum Pending {
    Operator(Op),
    Open,
}

/// Binding strength: `+` and `-` bind at 1, `*` and `/` at 2, a parenthesis at 0.
pub open spec fn prec(p: Pending) -> nat {
    match p {
        Pending::Operator(Op::Add) | Pending::Operator(Op::Sub) => 1,
        Pending::Operator(Op::Mul) | Pending::Operator(Op::Div) => 2,
        Pending::Open => 0,
    }
}

pub open spec fn expr_models(v: Seq<Expr>) -> Seq<ExprModel> {
    v.map_values(|e: Expr| e.model())
}

/// Combines the two topmost operands with `op`.
pub open spec fn reduce(out: Seq<ExprModel>, op: Op) -> Result<Seq<ExprModel>, ErrorKind> {
    if out.len() < 2 {
        Err(ErrorKind::InvalidExpression)
    } else {
        Ok(out.take(out.len() - 2).push(ExprModel::Binary(op, Box::new(out[out.len() - 2]), Box::new(out[out.len() - 1]))))
    }
}

/// Reduces the operators on top of the stack, down to the first open
/// parenthesis or the first operator that binds less than `min`.
pub open spec fn reduce_while(out: Seq<ExprModel>, ops: Seq<Pending>, min: nat) -> Result<(Seq<ExprModel>, Seq<Pending>), ErrorKind>
    decreases ops.len(),
{
    if ops.len() > 0 && ops.last() != Pending::Open && prec(ops.last()) >= min {
        match reduce(out, ops.last()->Operator_0) {
            Err(e) => Err(e),
            Ok(o) => reduce_while(o, ops.drop_last(), min),
        }
    } else {
        Ok((out, ops))
    }
}

/// One token of the shunting-yard algorithm.
pub open spec fn step(out: Seq<ExprModel>, ops: Seq<Pending>, t: TokenModel) -> Result<(Seq<ExprModel>, Seq<Pending>), ErrorKind> {
    match t {
        TokenModel::Number(n) => Ok((out.push(ExprModel::Number(n)), ops)),
        TokenModel::Word(w) => Ok((out.push(ExprModel::Variable(w)), ops)),
        TokenModel::Open => Ok((out, ops.push(Pending::Open))),
        TokenModel::Operator(op) => match reduce_while(out, ops, prec(Pending::Operator(op))) {
            Err(e) => Err(e),
            Ok((o, p)) => Ok((o, p.push(Pending::Operator(op)))),
        },
        TokenModel::Close => match reduce_while(out, ops, 1) {
            Err(e) => Err(e),
            Ok((o, p)) => if p.len() > 0 && p.last() == Pending::Open {
                Ok((o, p.drop_last()))
            } else {
                Err(ErrorKind::MismatchedParentheses)
            },
        },
    }
}

/// Reduces every operator left on the stack; a parenthesis left there was never closed.
pub open spec fn drain(out: Seq<ExprModel>, ops: Seq<Pending>) -> Result<Seq<ExprModel>, ErrorKind>
    decreases ops.len(),
{
    if ops.len() == 0 {
        Ok(out)
    } else if ops.last() == Pending::Open {
        Err(ErrorKind::MismatchedParentheses)
    } else {
        match reduce(out, ops.last()->Operator_0) {
            Err(e) => Err(e),
            Ok(o) => drain(o, ops.drop_last()),
        }
    }
}

/// What is left after the last token: exactly one expression.
pub open spec fn finish(out: Seq<ExprModel>, ops: Seq<Pending>) -> Result<ExprModel, ErrorKind> {
    match drain(out, ops) {
        Err(e) => Err(e),
        Ok(o) => if o.len() == 1 {
            Ok(o[0])
        } else {
            Err(ErrorKind::InvalidExpression)
        },
    }
}

/// Runs the algorithm from state `(out, ops)` over the tokens from position `i` on.
pub open spec fn parse_from(out: Seq<ExprModel>, ops: Seq<Pending>, ts: Seq<TokenModel>, i: int) -> Result<ExprModel, ErrorKind>
    decreases ts.len() - i,
{
    if i < 0 || i >= ts.len() {
        finish(out, ops)
    } else {
        match step(out, ops, ts[i]) {
            Err(e) => Err(e),
            Ok((o, p)) => parse_from(o, p, ts, i + 1),
        }
    }
}

/// The expression tree of a token sequence, or the first error met.
pub open spec fn parse_spec(ts: Seq<TokenModel>) -> Result<ExprModel, ErrorKind> {
    parse_from(seq![], seq![], ts, 0)
}

pub open spec fn result_model(r: Result<Expr, ErrorKind>) -> Result<ExprModel, ErrorKind> {
    match r {
        Ok(e) => Ok(e.model()),
        Err(k) => Err(k),
    }
}

/// The binding strength of a stack entry.
pub fn precedence(p: Pending) -> (r: usize)
    ensures
        r == prec(p),
{
    match p {
        Pending::Operator(Op::Add) | Pending::Operator(Op::Sub) => 1,
        Pending::Operator(Op::Mul) | Pending::Operator(Op::Div) => 2,
        Pending::Open => 0,
    }
}

/// Pops two operands, combines them with `op` and pushes the result;
/// fails, leaving the stack as it was, when fewer than two are there.
pub fn apply_op(op: Op, stack: &mut Vec<Expr>) -> (r: Result<(), ErrorKind>)
    ensures
        match reduce(expr_models(old(stack)@), op) {
            Ok(o) => r is Ok && expr_models(final(stack)@) == o,
            Err(e) => r == Err::<(), ErrorKind>(e) && final(stack)@ == old(stack)@,
        },
{
    if stack.len() < 2 {
        return Err(ErrorKind::InvalidExpression);
    }
    let right = stack.pop().unwrap();
    let left = stack.pop().unwrap();
    stack.push(Expr::binary(op, left, right));
    assert(expr_models(stack@) =~= reduce(expr_models(old(stack)@), op)->Ok_0);
    Ok(())
}

fn reduce_stack(out: &mut Vec<Expr>, ops: &mut Vec<Pending>, min: usize) -> (r: Result<(), ErrorKind>)
    ensures
        match reduce_while(expr_models(old(out)@), old(ops)@, min as nat) {
            Ok((o, p)) => r is Ok && expr_models(final(out)@) == o && final(ops)@ == p,
            Err(e) => r == Err::<(), ErrorKind>(e),
        },
{
    while ops.len() > 0 && ops[ops.len() - 1] != Pending::Open && precedence(ops[ops.len() - 1]) >= min
        invariant
            reduce_while(expr_models(old(out)@), old(ops)@, min as nat)
                == reduce_while(expr_models(out@), ops@, min as nat),
        decreases ops@.len(),
    {
        let top = ops.pop().unwrap();
        if let Pending::Operator(op) = top {
            let res = apply_op(op, out);
            if res.is_err() {
                return res;
            }
        }
    }
    Ok(())
}

fn drain_stack(out: &mut Vec<Expr>, ops: &mut Vec<Pending>) -> (r: Result<(), ErrorKind>)
    ensures
        match drain(expr_models(old(out)@), old(ops)@) {
            Ok(o) => r is Ok && expr_models(final(out)@) == o,
            Err(e) => r == Err::<(), ErrorKind>(e),
        },
{
    while ops.len() > 0
        invariant
            drain(expr_models(old(out)@), old(ops)@) == drain(expr_models(out@), ops@),
        decreases ops@.len(),
    {
        let top = ops.pop().unwrap();
        match top {
            Pending::Open => {
                return Err(ErrorKind::MismatchedParentheses);
            },
            Pending::Operator(op) => {
                let res = apply_op(op, out);
                if res.is_err() {
                    return res;
                }
            },
        }
    }
    Ok(())
}

/// Builds the expression tree of a token sequence by operator precedence,
/// left-associative, with parentheses for grouping.
pub fn parse_tokens(ts: &Vec<Token>) -> (r: Result<Expr, ErrorKind>)
    ensures
        result_model(r) == parse_spec(crate::lexer::token_models(ts@)),
{
    let ghost tms = crate::lexer::token_models(ts@);
    let mut out: Vec<Expr> = Vec::new();
    let mut ops: Vec<Pending> = Vec::new();
    let mut i: usize = 0;
    assert(expr_models(out@) =~= seq![]);
    while i < ts.len()
        invariant
            i <= ts@.len(),
            tms == crate::lexer::token_models(ts@),
            parse_spec(tms) == parse_from(expr_models(out@), ops@, tms, i as int),
        decreases ts@.len() - i,
    {
        let ghost out0 = expr_models(out@);
        let ghost ops0 = ops@;
        assert(tms[i as int] == ts@[i as int].model());
        match &ts[i] {
            Token::Number(n) => {
                out.push(Expr::Number(*n));
                assert(expr_models(out@) =~= out0.push(ExprModel::Number(*n)));
            },
            Token::Word(w) => {
                let name = w.clone();
                out.push(Expr::Variable(name));
                assert(expr_models(out@) =~= out0.push(ExprModel::Variable(w@)));
            },
            Token::Open => {
                ops.push(Pending::Open);
            },
            Token::Operator(op) => {
                let res = reduce_stack(&mut out, &mut ops, precedence(Pending::Operator(*op)));
                if let Err(e) = res {
                    return Err(e);
                }
                ops.push(Pending::Operator(*op));
            },
            Token::Close => {
                let res = reduce_stack(&mut out, &mut ops, 1);
                if let Err(e) = res {
                    return Err(e);
                }
                if ops.len() > 0 && ops[ops.len() - 1] == Pending::Open {
                    ops.pop();
                } else {
                    return Err(ErrorKind::MismatchedParentheses);
                }
            },
        }
        i = i + 1;
    }
    let res = drain_stack(&mut out, &mut ops);
    if let Err(e) = res {
        return Err(e);
    }
    if out.len() != 1 {
        return Err(ErrorKind::InvalidExpression);
    }
    Ok(out.pop().unwrap())
}

/// Tokenizes a line and parses it as one expression.
pub fn parse_expression(input: &str) -> (r: Result<Expr, ErrorKind>)
    ensures
        result_model(r) == parse_spec(lex(input@)),
{
    let ts = tokenize(input);
    parse_tokens(&ts)
}

} // verus!
