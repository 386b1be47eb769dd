use vstd::prelude::*;
use vstd::string::*;
use crate::ast::{Expr, ExprModel, Op};

verus! {

pub open spec fn digit_char(d: nat) -> char {
    (d + '0' as nat) as char
}

/// The decimal digits of `n`, most significant first, without leading zeros.
pub open spec fn decimal(n: nat) -> Seq<char>
    decreases n,
{
    if n < 10 {
        seq![digit_char(n)]
    } else {
        decimal(n / 10).push(digit_char(n % 10))
    }
}

/// The decimal text of an integer, with a leading `-` when it is negative.
pub open spec fn number_text(n: i64) -> Seq<char> {
    if n < 0 {
        seq!['-'] + decimal((-n) as nat)
    } else {
        decimal(n as nat)
    }
}

pub open spec fn op_char(op: Op) -> char {
    match op {
        Op::Add => '+',
        Op::Sub => '-',
        Op::Mul => '*',
        Op::Div => '/',
    }
}

/// Infix text of a tree: `left op right` with single spaces and no parentheses.
pub open spec fn render(e: ExprModel) -> Seq<char>
    decreases e,
{
    match e {
        ExprModel::Number(n) => number_text(n),
        ExprModel::Variable(name) => name,
        ExprModel::Binary(op, l, r) => render(*l) + seq![' ', op_char(op), ' '] + render(*r),
    }
}

fn digit_str(d: u64) -> (r: &'static str)
    requires
        d < 10,
    ensures
        r@ == seq![digit_char(d as nat)],
{
    proof {
        reveal_strlit("0");
        reveal_strlit("1");
        reveal_strlit("2");
        reveal_strlit("3");
        reveal_strlit("4");
        reveal_strlit("5");
        reveal_strlit("6");
        reveal_strlit("7");
        reveal_strlit("8");
        reveal_strlit("9");
    }
    let r = if d == 0 {
        "0"
    } else if d == 1 {
        "1"
    } else if d == 2 {
        "2"
    } else if d == 3 {
        "3"
    } else if d == 4 {
        "4"
    } else if d == 5 {
        "5"
    } else if d == 6 {
        "6"
    } else if d == 7 {
        "7"
    } else if d == 8 {
        "8"
    } else {
        "9"
    };
    assert(r@ =~= seq![digit_char(d as nat)]);
    r
}

fn write_decimal(out: &mut String, n: u64)
    ensures
        final(out)@ == old(out)@ + decimal(n as nat),
    decreases n,
{
    if n >= 10 {
        write_decimal(out, n / 10);
    }
    out.append(digit_str(n % 10));
    assert(final(out)@ =~= old(out)@ + decimal(n as nat));
}

fn operator_str(op: Op) -> (r: &'static str)
    ensures
        r@ == seq![' ', op_char(op), ' '],
{
    proof {
        reveal_strlit(" + ");
        reveal_strlit(" - ");
        reveal_strlit(" * ");
        reveal_strlit(" / ");
    }
    let r = match op {
        Op::Add => " + ",
        Op::Sub => " - ",
        Op::Mul => " * ",
        Op::Div => " / ",
    };
    assert(r@ =~= seq![' ', op_char(op), ' ']);
    r
}

fn write_expr(expr: &Expr, out: &mut String)
    ensures
        final(out)@ == old(out)@ + render(expr.model()),
    decreases expr,
{
    let (op, l, r) = match expr {
        Expr::Number(n) => {
            if *n < 0 {
                proof {
                    reveal_strlit("-");
                }
                out.append("-");
                let m: u64 = if *n == i64::MIN { 0x8000_0000_0000_0000 } else { (-*n) as u64 };
                write_decimal(out, m);
            } else {
                write_decimal(out, *n as u64);
            }
            assert(final(out)@ =~= old(out)@ + render(expr.model()));
            return;
        },
        Expr::Variable(name) => {
            out.append(name.as_str());
            return;
        },
        Expr::Add(l, r) => (Op::Add, l, r),
        Expr::Sub(l, r) => (Op::Sub, l, r),
        Expr::Mul(l, r) => (Op::Mul, l, r),
        Expr::Div(l, r) => (Op::Div, l, r),
    };
    write_expr(l, out);
    out.append(operator_str(op));
    write_expr(r, out);
    assert(final(out)@ =~= old(out)@ + render(expr.model()));
}

/// Renders an expression tree as infix text.
pub fn generate_code(expr: &Expr) -> (r: String)
    ensures
        r@ == render(expr.model()),
{
    let mut out = String::new();
    write_expr(expr, &mut out);
    assert(out@ =~= render(expr.model()));
    out
}

} // verus!
