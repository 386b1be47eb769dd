use vstd::prelude::*;
use crate::ast::{ErrorKind, ExprModel, Op};
use crate::env::lookup;
use crate::eval::{combine, eval};
use crate::codegen::{decimal, digit_char, number_text, op_char, render};
use crate::lexer::{
    digit_value, digits_value, is_digit, is_word_char, lemma_lex_digits,
    lemma_lex_prefix, lemma_lex_shift, lemma_lex_word, lex, lex_from, operator_of,
    TokenModel,
};
use crate::parser::{drain, parse_from, parse_spec, prec, reduce, reduce_while, Pending};

verus! {

/// Infix source text as written: operands, binary operators and parentheses.
pub enum Infix {
    Num(i64),
    Var(Seq<char>),
    Bin(Op, Box<Infix>, Box<Infix>),
    Paren(Box<Infix>),
}

/// How tightly a piece of syntax holds together: the precedence of its
/// operator, or above every operator for an operand or a parenthesised group.
pub open spec fn level(s: Infix) -> nat {
    match s {
        Infix::Bin(op, _, _) => prec(Pending::Operator(op)),
        _ => 3,
    }
}

/// Written by the usual rules: the left operand of an operator binds at least
/// as tightly as it (left associativity), the right operand strictly tighter;
/// anything else needs parentheses.
pub open spec fn well_formed(s: Infix) -> bool
    decreases s,
{
    match s {
        Infix::Bin(op, l, r) => well_formed(*l) && well_formed(*r)
            && level(*l) >= prec(Pending::Operator(op)) && level(*r) > prec(Pending::Operator(op)),
        Infix::Paren(x) => well_formed(*x),
        _ => true,
    }
}

/// The tokens of the text.
pub open spec fn infix_tokens(s: Infix) -> Seq<TokenModel>
    decreases s,
{
    match s {
        Infix::Num(n) => seq![TokenModel::Number(n)],
        Infix::Var(w) => seq![TokenModel::Word(w)],
        Infix::Bin(op, l, r) => infix_tokens(*l) + seq![TokenModel::Operator(op)] + infix_tokens(*r),
        Infix::Paren(x) => seq![TokenModel::Open] + infix_tokens(*x) + seq![TokenModel::Close],
    }
}

/// The tree the text denotes: parentheses only group.
pub open spec fn tree_of(s: Infix) -> ExprModel
    decreases s,
{
    match s {
        Infix::Num(n) => ExprModel::Number(n),
        Infix::Var(w) => ExprModel::Variable(w),
        Infix::Bin(op, l, r) => ExprModel::Binary(op, Box::new(tree_of(*l)), Box::new(tree_of(*r))),
        Infix::Paren(x) => tree_of(*x),
    }
}

/// Arithmetic on the text as written: a group has the value of its contents,
/// an operator applies to the values of its operands, left one first.
pub open spec fn arith(s: Infix, vars: Map<Seq<char>, i64>) -> Result<i64, ErrorKind>
    decreases s,
{
    match s {
        Infix::Num(n) => Ok(n),
        Infix::Var(w) => match lookup(vars, w) {
            Some(v) => Ok(v),
            None => Err(ErrorKind::UndefinedVariable),
        },
        Infix::Paren(x) => arith(*x, vars),
        Infix::Bin(op, l, r) => match arith(*l, vars) {
            Err(k) => Err(k),
            Ok(a) => match arith(*r, vars) {
                Err(k) => Err(k),
                Ok(b) => combine(op, a, b),
            },
        },
    }
}

/// The parser's stacks once the tokens of `s` are read from `(out, ops)`:
/// the left operands wait on `out`, their operators on `ops`.
pub open spec fn after(s: Infix, out: Seq<ExprModel>, ops: Seq<Pending>) -> (Seq<ExprModel>, Seq<Pending>)
    decreases s,
{
    match s {
        Infix::Bin(op, l, r) => after(*r, out.push(tree_of(*l)), ops.push(Pending::Operator(op))),
        _ => (out.push(tree_of(s)), ops),
    }
}

/// Nothing on top of `ops` would be reduced by an operator binding at `m`.
pub open spec fn stops_below(ops: Seq<Pending>, m: nat) -> bool {
    ops.len() == 0 || ops.last() == Pending::Open || prec(ops.last()) < m
}

proof fn lemma_reduce_pushed(out: Seq<ExprModel>, a: ExprModel, b: ExprModel, ops: Seq<Pending>, op: Op)
    ensures
        reduce(out.push(a).push(b), op) == Ok::<Seq<ExprModel>, ErrorKind>(out.push(ExprModel::Binary(op, Box::new(a), Box::new(b)))),
        ops.push(Pending::Operator(op)).drop_last() == ops,
{
    let o = out.push(a).push(b);
    assert(o.take(o.len() - 2) =~= out);
    assert(ops.push(Pending::Operator(op)).drop_last() =~= ops);
}

proof fn lemma_reduce_after(s: Infix, out: Seq<ExprModel>, ops: Seq<Pending>, m: nat)
    requires
        well_formed(s),
        m <= level(s),
    ensures
        reduce_while(after(s, out, ops).0, after(s, out, ops).1, m) == reduce_while(out.push(tree_of(s)), ops, m),
    decreases s,
{
    if let Infix::Bin(op, l, r) = s {
        let ops1 = ops.push(Pending::Operator(op));
        lemma_reduce_after(*r, out.push(tree_of(*l)), ops1, m);
        lemma_reduce_pushed(out, tree_of(*l), tree_of(*r), ops, op);
    }
}

proof fn lemma_drain_after(s: Infix, out: Seq<ExprModel>, ops: Seq<Pending>)
    requires
        well_formed(s),
    ensures
        drain(after(s, out, ops).0, after(s, out, ops).1) == drain(out.push(tree_of(s)), ops),
    decreases s,
{
    if let Infix::Bin(op, l, r) = s {
        let ops1 = ops.push(Pending::Operator(op));
        lemma_drain_after(*r, out.push(tree_of(*l)), ops1);
        lemma_reduce_pushed(out, tree_of(*l), tree_of(*r), ops, op);
    }
}

/// Reading the tokens of `s` takes the parser from `(out, ops)` to `after(s, out, ops)`.
proof fn lemma_read(s: Infix, out: Seq<ExprModel>, ops: Seq<Pending>, ts: Seq<TokenModel>, i: int)
    requires
        well_formed(s),
        0 <= i,
        i + infix_tokens(s).len() <= ts.len(),
        ts.subrange(i, i + infix_tokens(s).len()) == infix_tokens(s),
        stops_below(ops, level(s)),
    ensures
        parse_from(out, ops, ts, i) == parse_from(after(s, out, ops).0, after(s, out, ops).1, ts, i + infix_tokens(s).len()),
    decreases s,
{
    match s {
        Infix::Num(_) => {
            assert(ts[i] == infix_tokens(s)[0]);
        },
        Infix::Var(_) => {
            assert(ts[i] == infix_tokens(s)[0]);
        },
        Infix::Paren(x) => {
            let tx = infix_tokens(*x);
            let k = tx.len() as int;
            assert(ts[i] == infix_tokens(s)[0]);
            assert(ts.subrange(i + 1, i + 1 + k) =~= tx) by {
                assert forall|m: int| 0 <= m < k implies ts.subrange(i + 1, i + 1 + k)[m] == tx[m] by {
                    assert(ts[i + 1 + m] == infix_tokens(s)[1 + m]);
                }
            }
            assert(ts[i + 1 + k] == infix_tokens(s)[1 + k]);
            let ops1 = ops.push(Pending::Open);
            lemma_read(*x, out, ops1, ts, i + 1);
            lemma_reduce_after(*x, out, ops1, 1);
            assert(ops1.drop_last() =~= ops);
        },
        Infix::Bin(op, l, r) => {
            let tl = infix_tokens(*l);
            let tr = infix_tokens(*r);
            let a = tl.len() as int;
            let b = tr.len() as int;
            assert(ts.subrange(i, i + a) =~= tl) by {
                assert forall|m: int| 0 <= m < a implies ts.subrange(i, i + a)[m] == tl[m] by {
                    assert(ts[i + m] == infix_tokens(s)[m]);
                }
            }
            assert(ts.subrange(i + a + 1, i + a + 1 + b) =~= tr) by {
                assert forall|m: int| 0 <= m < b implies ts.subrange(i + a + 1, i + a + 1 + b)[m] == tr[m] by {
                    assert(ts[i + a + 1 + m] == infix_tokens(s)[a + 1 + m]);
                }
            }
            assert(ts[i + a] == infix_tokens(s)[a]);
            lemma_read(*l, out, ops, ts, i);
            lemma_reduce_after(*l, out, ops, prec(Pending::Operator(op)));
            let out1 = out.push(tree_of(*l));
            let ops1 = ops.push(Pending::Operator(op));
            lemma_read(*r, out1, ops1, ts, i + a + 1);
        },
    }
}

/// Parsing honours precedence, left associativity and grouping: the tokens
/// of well-formed infix text parse to the tree the text denotes, and that tree
/// evaluates to the value that the usual arithmetic rules give the text.
pub proof fn lemma_parse_respects_precedence(s: Infix, vars: Map<Seq<char>, i64>)
    requires
        well_formed(s),
    ensures
        parse_spec(infix_tokens(s)) == Ok::<ExprModel, ErrorKind>(tree_of(s)),
        eval(tree_of(s), vars) == arith(s, vars),
{
    let ts = infix_tokens(s);
    assert(ts.subrange(0, ts.len() as int) =~= ts);
    lemma_read(s, seq![], seq![], ts, 0);
    lemma_drain_after(s, seq![], seq![]);
    assert(seq![].push(tree_of(s)) =~= seq![tree_of(s)]);
    lemma_eval_tree(s, vars);
}

proof fn lemma_eval_tree(s: Infix, vars: Map<Seq<char>, i64>)
    ensures
        eval(tree_of(s), vars) == arith(s, vars),
    decreases s,
{
    match s {
        Infix::Bin(_, l, r) => {
            lemma_eval_tree(*l, vars);
            lemma_eval_tree(*r, vars);
        },
        Infix::Paren(x) => {
            lemma_eval_tree(*x, vars);
        },
        _ => {},
    }
}

/// The number of open parentheses on the operator stack.
pub open spec fn count_open(ops: Seq<Pending>) -> int
    decreases ops.len(),
{
    if ops.len() == 0 {
        0
    } else {
        count_open(ops.drop_last()) + if ops.last() == Pending::Open { 1int } else { 0int }
    }
}

pub open spec fn depth_change(t: TokenModel) -> int {
    match t {
        TokenModel::Open => 1,
        TokenModel::Close => -1,
        _ => 0,
    }
}

/// From position `i` on, at nesting depth `d`, no `)` closes more than was
/// opened and every `(` is closed by the end.
pub open spec fn balanced_from(ts: Seq<TokenModel>, i: int, d: int) -> bool
    decreases ts.len() - i,
{
    if i < 0 || i >= ts.len() {
        d == 0
    } else {
        d + depth_change(ts[i]) >= 0 && balanced_from(ts, i + 1, d + depth_change(ts[i]))
    }
}

pub open spec fn balanced(ts: Seq<TokenModel>) -> bool {
    balanced_from(ts, 0, 0)
}

pub open spec fn is_syntax_error(k: ErrorKind) -> bool {
    k == ErrorKind::MismatchedParentheses || k == ErrorKind::InvalidExpression
}

proof fn lemma_count_open(ops: Seq<Pending>, x: Pending)
    ensures
        count_open(ops) >= 0,
        count_open(ops.push(x)) == count_open(ops) + if x == Pending::Open { 1int } else { 0int },
        count_open(ops) > 0 ==> ops.len() > 0,
    decreases ops.len(),
{
    assert(ops.push(x).drop_last() =~= ops);
    if ops.len() > 0 {
        lemma_count_open(ops.drop_last(), x);
    }
}

proof fn lemma_reduce_while_keeps_open(out: Seq<ExprModel>, ops: Seq<Pending>, m: nat)
    requires
        m >= 1,
    ensures
        match reduce_while(out, ops, m) {
            Ok((o, p)) => count_open(p) == count_open(ops) && stops_below(p, m),
            Err(k) => k == ErrorKind::InvalidExpression,
        },
    decreases ops.len(),
{
    if ops.len() > 0 && ops.last() != Pending::Open && prec(ops.last()) >= m {
        if let Ok(o) = reduce(out, ops.last()->Operator_0) {
            lemma_reduce_while_keeps_open(o, ops.drop_last(), m);
        }
    }
}

proof fn lemma_drain_open(out: Seq<ExprModel>, ops: Seq<Pending>)
    requires
        count_open(ops) > 0,
    ensures
        drain(out, ops) is Err && is_syntax_error(drain(out, ops)->Err_0),
    decreases ops.len(),
{
    lemma_count_open(ops, Pending::Open);
    if ops.last() != Pending::Open {
        lemma_count_open(ops.drop_last(), Pending::Open);
        if let Ok(o) = reduce(out, ops.last()->Operator_0) {
            lemma_drain_open(o, ops.drop_last());
        }
    }
}

proof fn lemma_unbalanced_from(out: Seq<ExprModel>, ops: Seq<Pending>, ts: Seq<TokenModel>, i: int)
    requires
        0 <= i,
        !balanced_from(ts, i, count_open(ops)),
    ensures
        parse_from(out, ops, ts, i) is Err && is_syntax_error(parse_from(out, ops, ts, i)->Err_0),
    decreases ts.len() - i,
{
    let d = count_open(ops);
    lemma_count_open(ops, Pending::Open);
    if i >= ts.len() {
        lemma_drain_open(out, ops);
    } else {
        match ts[i] {
            TokenModel::Number(n) => {
                lemma_unbalanced_from(out.push(ExprModel::Number(n)), ops, ts, i + 1);
            },
            TokenModel::Word(w) => {
                lemma_unbalanced_from(out.push(ExprModel::Variable(w)), ops, ts, i + 1);
            },
            TokenModel::Open => {
                lemma_unbalanced_from(out, ops.push(Pending::Open), ts, i + 1);
            },
            TokenModel::Operator(op) => {
                lemma_reduce_while_keeps_open(out, ops, prec(Pending::Operator(op)));
                if let Ok((o, p)) = reduce_while(out, ops, prec(Pending::Operator(op))) {
                    lemma_count_open(p, Pending::Operator(op));
                    lemma_unbalanced_from(o, p.push(Pending::Operator(op)), ts, i + 1);
                }
            },
            TokenModel::Close => {
                lemma_reduce_while_keeps_open(out, ops, 1);
                if let Ok((o, p)) = reduce_while(out, ops, 1) {
                    lemma_count_open(p, Pending::Open);
                    if p.len() > 0 && p.last() == Pending::Open {
                        lemma_count_open(p.drop_last(), Pending::Open);
                        assert(count_open(p.drop_last()) == d - 1);
                        lemma_unbalanced_from(o, p.drop_last(), ts, i + 1);
                    }
                }
            },
        }
    }
}

/// Unbalanced parentheses never parse: a `)` with no `(` open before it, or
/// a `(` never closed, makes parsing fail. The failure is reported as
/// mismatched parentheses, unless an operator without its two operands is
/// met first.
pub proof fn lemma_unbalanced_never_parses(ts: Seq<TokenModel>)
    requires
        !balanced(ts),
    ensures
        parse_spec(ts) is Err,
        is_syntax_error(parse_spec(ts)->Err_0),
{
    assert(count_open(seq![]) == 0);
    lemma_unbalanced_from(seq![], seq![], ts, 0);
}

/// A well-formed text with one unmatched parenthesis added, a `(` in front or
/// a `)` at the end, fails with mismatched parentheses.
pub proof fn lemma_extra_parenthesis(s: Infix)
    requires
        well_formed(s),
    ensures
        parse_spec(seq![TokenModel::Open] + infix_tokens(s)) == Err::<ExprModel, ErrorKind>(ErrorKind::MismatchedParentheses),
        parse_spec(infix_tokens(s) + seq![TokenModel::Close]) == Err::<ExprModel, ErrorKind>(ErrorKind::MismatchedParentheses),
{
    let ts = infix_tokens(s);
    let n = ts.len() as int;
    let open_first = seq![TokenModel::Open] + ts;
    assert(open_first.subrange(1, 1 + n) =~= ts);
    assert(open_first[0] == TokenModel::Open);
    lemma_read(s, seq![], seq![Pending::Open], open_first, 1);
    lemma_drain_after(s, seq![], seq![Pending::Open]);
    let close_last = ts + seq![TokenModel::Close];
    assert(close_last.subrange(0, n) =~= ts);
    assert(close_last[n] == TokenModel::Close);
    lemma_read(s, seq![], seq![], close_last, 0);
    lemma_reduce_after(s, seq![], seq![], 1);
}

/// A name: word characters, the first not a digit.
pub open spec fn is_name(w: Seq<char>) -> bool {
    w.len() > 0 && !is_digit(w[0]) && forall|k: int| 0 <= k < w.len() ==> is_word_char(#[trigger] w[k])
}

/// The leaves that parsing produces: numbers that are not negative, and names.
pub open spec fn plain_leaves(e: ExprModel) -> bool
    decreases e,
{
    match e {
        ExprModel::Number(n) => n >= 0,
        ExprModel::Variable(w) => is_name(w),
        ExprModel::Binary(_, l, r) => plain_leaves(*l) && plain_leaves(*r),
    }
}

/// A flat tree: operators of one precedence `p` only, each with a leaf on its right.
pub open spec fn flat(e: ExprModel, p: nat) -> bool
    decreases e,
{
    match e {
        ExprModel::Binary(op, l, r) => prec(Pending::Operator(op)) == p && flat(*l, p) && !(*r is Binary)
            && plain_leaves(*r),
        _ => plain_leaves(e),
    }
}

/// The tree written without parentheses.
pub open spec fn plain(e: ExprModel) -> Infix
    decreases e,
{
    match e {
        ExprModel::Number(n) => Infix::Num(n),
        ExprModel::Variable(w) => Infix::Var(w),
        ExprModel::Binary(op, l, r) => Infix::Bin(op, Box::new(plain(*l)), Box::new(plain(*r))),
    }
}

proof fn lemma_decimal(n: nat)
    ensures
        decimal(n).len() > 0,
        forall|k: int| 0 <= k < decimal(n).len() ==> is_digit(#[trigger] decimal(n)[k]),
        digits_value(decimal(n)) == n,
    decreases n,
{
    let c = digit_char(n % 10);
    assert(digit_value(c) == n % 10);
    if n >= 10 {
        lemma_decimal(n / 10);
        assert(decimal(n).drop_last() =~= decimal(n / 10));
        assert(n == (n / 10) * 10 + n % 10) by (nonlinear_arith);
    } else {
        assert(decimal(n).drop_last() =~= seq![]);
        assert(digits_value(decimal(n).drop_last()) == 0);
    }
    assert(decimal(n).last() == c);
    assert(digits_value(decimal(n)) == digits_value(decimal(n).drop_last()) * 10 + digit_value(decimal(n).last()));
}

proof fn lemma_flat_plain(e: ExprModel, p: nat)
    requires
        flat(e, p),
        1 <= p <= 2,
    ensures
        well_formed(plain(e)),
        readable(plain(e)),
        level(plain(e)) >= p,
        tree_of(plain(e)) == e,
        infix_text(plain(e)) == render(e),
    decreases e,
{
    if let ExprModel::Binary(op, l, r) = e {
        lemma_flat_plain(*l, p);
        match *r {
            ExprModel::Number(v) => {
                assert(plain(*r) == Infix::Num(v));
            },
            ExprModel::Variable(w) => {
                assert(plain(*r) == Infix::Var(w));
            },
            _ => {},
        }
        assert(tree_of(plain(*r)) == *r);
        assert(well_formed(plain(*r)));
        assert(readable(plain(*r)));
        assert(infix_text(plain(*r)) == render(*r));
    }
}

/// The text of `s`: operators between single spaces, parentheses written tight.
pub open spec fn infix_text(s: Infix) -> Seq<char>
    decreases s,
{
    match s {
        Infix::Num(n) => number_text(n),
        Infix::Var(w) => w,
        Infix::Bin(op, l, r) => infix_text(*l) + seq![' ', op_char(op), ' '] + infix_text(*r),
        Infix::Paren(x) => seq!['('] + infix_text(*x) + seq![')'],
    }
}

/// Numbers that are not negative and names, as the tokenizer reads them back.
pub open spec fn readable(s: Infix) -> bool
    decreases s,
{
    match s {
        Infix::Num(n) => n >= 0,
        Infix::Var(w) => is_name(w),
        Infix::Bin(_, l, r) => readable(*l) && readable(*r),
        Infix::Paren(x) => readable(*x),
    }
}

proof fn lemma_lex_infix(s: Infix)
    requires
        readable(s),
    ensures
        lex(infix_text(s)) == infix_tokens(s),
    decreases s,
{
    match s {
        Infix::Num(n) => {
            lemma_decimal(n as nat);
            lemma_lex_digits(decimal(n as nat));
        },
        Infix::Var(w) => {
            lemma_lex_word(w);
        },
        Infix::Bin(op, l, r) => {
            lemma_lex_infix(*l);
            lemma_lex_infix(*r);
            let lt = infix_text(*l);
            let a = lt.len() as int;
            let mid = lt + seq![' ', op_char(op), ' '];
            let st = mid + infix_text(*r);
            assert(st == infix_text(s));
            assert(st[a] == ' ');
            assert(st.take(a) =~= lt);
            lemma_lex_prefix(st, a, 0);
            assert(st[a + 1] == op_char(op));
            assert(st[a + 2] == ' ');
            assert(operator_of(op_char(op)) == Some(op));
            assert(lex_from(st, a) == lex_from(st, a + 1));
            assert(lex_from(st, a + 1) == seq![TokenModel::Operator(op)] + lex_from(st, a + 2));
            assert(lex_from(st, a + 2) == lex_from(st, a + 3));
            lemma_lex_shift(mid, infix_text(*r), 0);
            assert(lex(st) =~= infix_tokens(s));
        },
        Infix::Paren(x) => {
            lemma_lex_infix(*x);
            let xt = infix_text(*x);
            let a = 1 + xt.len() as int;
            let front = seq!['('] + xt;
            let st = front + seq![')'];
            assert(st == infix_text(s));
            assert(st[0] == '(');
            assert(st[a] == ')');
            assert(st.take(a) =~= front);
            lemma_lex_prefix(st, a, 1);
            lemma_lex_shift(seq!['('], xt, 0);
            assert(lex_from(st, a + 1) =~= seq![]);
            assert(lex(st) =~= infix_tokens(s));
        },
    }
}

/// The same law on text: well-formed infix text, tokenized and parsed,
/// gives the tree it denotes, whose value is the one the usual rules give.
pub proof fn lemma_text_respects_precedence(s: Infix, vars: Map<Seq<char>, i64>)
    requires
        well_formed(s),
        readable(s),
    ensures
        parse_spec(lex(infix_text(s))) == Ok::<ExprModel, ErrorKind>(tree_of(s)),
        eval(tree_of(s), vars) == arith(s, vars),
{
    lemma_lex_infix(s);
    lemma_parse_respects_precedence(s, vars);
}

/// Generated code of a flat tree reads back as the same tree: rendering a
/// tree whose operators share one precedence, each with a leaf as its right
/// operand, then tokenizing and parsing the text, gives the tree back.
pub proof fn lemma_flat_round_trip(e: ExprModel, p: nat)
    requires
        flat(e, p),
        1 <= p <= 2,
    ensures
        parse_spec(lex(render(e))) == Ok::<ExprModel, ErrorKind>(e),
{
    lemma_flat_plain(e, p);
    lemma_text_respects_precedence(plain(e), Map::empty());
}

} // verus!
