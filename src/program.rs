use vstd::prelude::*;
use vstd::string::*;
use crate::ast::{ErrorKind, Expr, ExprModel};
use crate::env::{lookup, Env};
use crate::eval::{eval, evaluate_expr};
use crate::lexer::{
    chars_of, digits_value, is_digit, is_digit_char, is_word_char, is_word_character, lex,
    lemma_run_end, number_of, run_end, scan_run, Token,
};
use crate::parser::{parse_expression, parse_spec};

verus! {

/// One line of a program.
#[derive(Debug)]
pub enum Stmt {
    /// `var name = literal`: the variable is registered when the line is parsed.
    Declaration(String, i64),
    /// `name = expression`: the value is stored when the statement runs.
    Assignment(String, Expr),
    /// A bare expression, evaluated when the statement runs.
    Expression(Expr),
}

pub enum StmtModel {
    Declaration(Seq<char>, i64),
    Assignment(Seq<char>, ExprModel),
    Expression(ExprModel),
}

impl Stmt {
    pub open spec fn model(&self) -> StmtModel {
        match self {
            Stmt::Declaration(n, v) => StmtModel::Declaration(n@, *v),
            Stmt::Assignment(n, e) => StmtModel::Assignment(n@, e.model()),
            Stmt::Expression(e) => StmtModel::Expression(e.model()),
        }
    }
}

pub open spec fn stmt_models(v: Seq<Stmt>) -> Seq<StmtModel> {
    v.map_values(|s: Stmt| s.model())
}

/// An error, with the line (counted from 1) whose statement caused it.
#[derive(Clone, Copy, Debug, PartialEq, Eq, Structural)]
pub struct LineError {
    pub line: usize,
    pub kind: ErrorKind,
}

/// The variables and the statements of a parsed program, in line order.
#[derive(Debug)]
pub struct Program {
    pub variables: Env,
    pub statements: Vec<Stmt>,
}

// ---- lines ----

/// The position of the first line break at or after `i`, or the end of the text.
pub open spec fn line_end(s: Seq<char>, i: int) -> int
    decreases s.len() - i,
{
    if 0 <= i < s.len() && s[i] != '\n' {
        line_end(s, i + 1)
    } else {
        i
    }
}

proof fn lemma_line_end(s: Seq<char>, i: int)
    requires
        0 <= i <= s.len(),
    ensures
        i <= line_end(s, i) <= s.len(),
        line_end(s, i) < s.len() ==> s[line_end(s, i)] == '\n',
    decreases s.len() - i,
{
    if i < s.len() && s[i] != '\n' {
        lemma_line_end(s, i + 1);
    }
}

/// A line without the carriage return that ends it, if any.
pub open spec fn strip_cr(l: Seq<char>) -> Seq<char> {
    if l.len() > 0 && l.last() == '\r' {
        l.drop_last()
    } else {
        l
    }
}

/// The lines from position `i` on, split at each `\n`; a final line break
/// opens no empty line.
pub open spec fn lines_from(s: Seq<char>, i: int) -> Seq<Seq<char>>
    decreases s.len() + 1 - i,
    via lines_from_decreases
{
    if i < 0 || i >= s.len() {
        seq![]
    } else {
        seq![strip_cr(s.subrange(i, line_end(s, i)))] + lines_from(s, line_end(s, i) + 1)
    }
}

#[via_fn]
proof fn lines_from_decreases(s: Seq<char>, i: int) {
    if 0 <= i < s.len() {
        lemma_line_end(s, i);
    }
}

pub open spec fn lines(s: Seq<char>) -> Seq<Seq<char>> {
    lines_from(s, 0)
}

pub open spec fn string_views(v: Seq<String>) -> Seq<Seq<char>> {
    v.map_values(|s: String| s@)
}

/// Splits a text into its lines.
pub fn split_lines(s: &str) -> (r: Vec<String>)
    ensures
        string_views(r@) == lines(s@),
{
    let cs = chars_of(s);
    let n = cs.len();
    let mut r: Vec<String> = Vec::new();
    let mut i: usize = 0;
    while i < n
        invariant
            cs@ == s@,
            n == cs@.len(),
            i <= n,
            lines(s@) == string_views(r@) + lines_from(s@, i as int),
        decreases n - i,
    {
        proof {
            lemma_line_end(s@, i as int);
        }
        let mut j = i;
        while j < n && cs[j] != '\n'
            invariant
                cs@ == s@,
                n == cs@.len(),
                i <= j <= n,
                line_end(s@, j as int) == line_end(s@, i as int),
            decreases n - j,
        {
            j = j + 1;
        }
        let end = if j > i && cs[j - 1] == '\r' { j - 1 } else { j };
        let line = String::from_str(s.substring_char(i, end));
        let ghost before = r@;
        assert(line@ =~= strip_cr(s@.subrange(i as int, j as int)));
        r.push(line);
        assert(string_views(r@) =~= string_views(before) + seq![line@]);
        assert(lines(s@) =~= string_views(r@) + lines_from(s@, j + 1));
        if j < n {
            i = j + 1;
        } else {
            assert(lines_from(s@, j + 1) =~= lines_from(s@, n as int));
            i = n;
        }
    }
    assert(lines_from(s@, i as int) =~= seq![]);
    assert(string_views(r@) + seq![] =~= string_views(r@));
    r
}

// ---- statements ----

pub open spec fn is_space(c: char) -> bool {
    c == ' ' || c == '\t' || c == '\n' || c == '\r' || c == '\u{b}' || c == '\u{c}'
}

/// The end of the run of whitespace that starts at `i`.
pub open spec fn space_end(s: Seq<char>, i: int) -> int
    decreases s.len() - i,
{
    if 0 <= i < s.len() && is_space(s[i]) {
        space_end(s, i + 1)
    } else {
        i
    }
}

proof fn lemma_space_end(s: Seq<char>, i: int)
    requires
        0 <= i <= s.len(),
    ensures
        i <= space_end(s, i) <= s.len(),
        space_end(s, i) < s.len() ==> !is_space(s[space_end(s, i)]),
    decreases s.len() - i,
{
    if i < s.len() && is_space(s[i]) {
        lemma_space_end(s, i + 1);
    }
}

/// A name starts at `i`: a word character that is not a digit.
pub open spec fn name_starts(l: Seq<char>, i: int) -> bool {
    0 <= i < l.len() && is_word_char(l[i]) && !is_digit(l[i])
}

/// `var <name> = <digits>`, with optional whitespace around the parts and at
/// least one space after `var`: the name and the value, when the digits fit in `i64`.
pub open spec fn declaration_of(l: Seq<char>) -> Option<(Seq<char>, i64)> {
    let a = space_end(l, 0);
    let b = a + 3;
    let c = space_end(l, b);
    let d = run_end(l, c, false);
    let e = space_end(l, d);
    let f = space_end(l, e + 1);
    let g = run_end(l, f, true);
    if b <= l.len() && l.subrange(a, b) == seq!['v', 'a', 'r'] && c > b && name_starts(l, c)
        && e < l.len() && l[e] == '=' && f < l.len() && is_digit(l[f]) && space_end(l, g)
        == l.len() && digits_value(l.subrange(f, g)) <= i64::MAX {
        Some((l.subrange(c, d), digits_value(l.subrange(f, g)) as i64))
    } else {
        None
    }
}

/// `<name> = <rest>`: the name and the text of the right-hand side.
pub open spec fn assignment_of(l: Seq<char>) -> Option<(Seq<char>, Seq<char>)> {
    let a = space_end(l, 0);
    let d = run_end(l, a, false);
    let e = space_end(l, d);
    if name_starts(l, a) && e < l.len() && l[e] == '=' {
        Some((l.subrange(a, d), l.subrange(e + 1, l.len() as int)))
    } else {
        None
    }
}

/// A line is a declaration if it has that form, else an assignment if it has
/// that form, else a bare expression.
pub open spec fn statement_of(l: Seq<char>) -> Result<StmtModel, ErrorKind> {
    match declaration_of(l) {
        Some((n, v)) => Ok(StmtModel::Declaration(n, v)),
        None => match assignment_of(l) {
            Some((n, rhs)) => match parse_spec(lex(rhs)) {
                Ok(e) => Ok(StmtModel::Assignment(n, e)),
                Err(k) => Err(k),
            },
            None => match parse_spec(lex(l)) {
                Ok(e) => Ok(StmtModel::Expression(e)),
                Err(k) => Err(k),
            },
        },
    }
}

pub(crate) fn is_space_char(c: char) -> (r: bool)
    ensures
        r == is_space(c),
{
    c == ' ' || c == '\t' || c == '\n' || c == '\r' || c == '\u{b}' || c == '\u{c}'
}

fn skip_spaces(cs: &Vec<char>, i: usize) -> (j: usize)
    requires
        i <= cs@.len(),
    ensures
        j == space_end(cs@, i as int),
        i <= j <= cs@.len(),
{
    proof {
        lemma_space_end(cs@, i as int);
    }
    let mut j = i;
    while j < cs.len() && is_space_char(cs[j])
        invariant
            i <= j <= cs@.len(),
            space_end(cs@, j as int) == space_end(cs@, i as int),
        decreases cs@.len() - j,
    {
        j = j + 1;
    }
    j
}

fn name_at(cs: &Vec<char>, i: usize) -> (r: bool)
    ensures
        r == name_starts(cs@, i as int),
{
    i < cs.len() && is_word_character(cs[i]) && !is_digit_char(cs[i])
}

fn parse_declaration(line: &str, cs: &Vec<char>) -> (r: Option<(String, i64)>)
    requires
        cs@ == line@,
    ensures
        match r {
            Some((n, v)) => declaration_of(line@) == Some((n@, v)),
            None => declaration_of(line@) is None,
        },
{
    let ghost l = line@;
    let n = cs.len();
    let a = skip_spaces(cs, 0);
    if n - a < 3 || cs[a] != 'v' || cs[a + 1] != 'a' || cs[a + 2] != 'r' {
        proof {
            if a + 3 <= n {
                assert(l.subrange(a as int, a + 3)[0] == cs@[a as int]);
                assert(l.subrange(a as int, a + 3)[1] == cs@[a + 1]);
                assert(l.subrange(a as int, a + 3)[2] == cs@[a + 2]);
            }
        }
        return None;
    }
    assert(l.subrange(a as int, a + 3) =~= seq!['v', 'a', 'r']);
    let b = a + 3;
    let c = skip_spaces(cs, b);
    if c == b || !name_at(cs, c) {
        return None;
    }
    let d = scan_run(cs, c, false);
    proof {
        lemma_run_end(l, c as int, false);
    }
    let e = skip_spaces(cs, d);
    if e >= n || cs[e] != '=' {
        return None;
    }
    let f = skip_spaces(cs, e + 1);
    if f >= n || !is_digit_char(cs[f]) {
        return None;
    }
    let g = scan_run(cs, f, true);
    proof {
        lemma_run_end(l, f as int, true);
    }
    if skip_spaces(cs, g) != n {
        return None;
    }
    match number_of(line, cs, f, g) {
        Token::Number(v) => Some((String::from_str(line.substring_char(c, d)), v)),
        _ => None,
    }
}

fn parse_assignment(line: &str, cs: &Vec<char>) -> (r: Option<(String, Result<Expr, ErrorKind>)>)
    requires
        cs@ == line@,
    ensures
        match r {
            Some((n, e)) => match assignment_of(line@) {
                Some((an, rhs)) => an == n@ && crate::parser::result_model(e) == parse_spec(lex(rhs)),
                None => false,
            },
            None => assignment_of(line@) is None,
        },
{
    let ghost l = line@;
    let n = cs.len();
    let a = skip_spaces(cs, 0);
    if !name_at(cs, a) {
        return None;
    }
    let d = scan_run(cs, a, false);
    proof {
        lemma_run_end(l, a as int, false);
    }
    let e = skip_spaces(cs, d);
    if e >= n || cs[e] != '=' {
        return None;
    }
    let name = String::from_str(line.substring_char(a, d));
    let rhs = line.substring_char(e + 1, n);
    Some((name, parse_expression(rhs)))
}

/// Classifies and parses one line.
pub fn parse_statement(line: &str) -> (r: Result<Stmt, ErrorKind>)
    ensures
        match r {
            Ok(st) => statement_of(line@) == Ok::<StmtModel, ErrorKind>(st.model()),
            Err(k) => statement_of(line@) == Err::<StmtModel, ErrorKind>(k),
        },
{
    let cs = chars_of(line);
    if let Some((name, v)) = parse_declaration(line, &cs) {
        return Ok(Stmt::Declaration(name, v));
    }
    if let Some((name, rhs)) = parse_assignment(line, &cs) {
        return match rhs {
            Ok(e) => Ok(Stmt::Assignment(name, e)),
            Err(k) => Err(k),
        };
    }
    match parse_expression(line) {
        Ok(e) => Ok(Stmt::Expression(e)),
        Err(k) => Err(k),
    }
}

// ---- programs ----

/// A declaration registers its variable when parsed; other statements leave the mapping as it is.
pub open spec fn declare(vars: Map<Seq<char>, i64>, st: StmtModel) -> Map<Seq<char>, i64> {
    match st {
        StmtModel::Declaration(n, v) => vars.insert(n, v),
        _ => vars,
    }
}

/// Parses the lines from index `k` on, given the variables and statements of the lines before.
pub open spec fn program_from(
    ls: Seq<Seq<char>>,
    k: int,
    vars: Map<Seq<char>, i64>,
    stmts: Seq<StmtModel>,
) -> Result<(Map<Seq<char>, i64>, Seq<StmtModel>), LineError>
    decreases ls.len() - k,
{
    if k < 0 || k >= ls.len() {
        Ok((vars, stmts))
    } else {
        match statement_of(ls[k]) {
            Err(e) => Err(LineError { line: (k + 1) as usize, kind: e }),
            Ok(st) => program_from(ls, k + 1, declare(vars, st), stmts.push(st)),
        }
    }
}

/// The declared variables and the statements of a text, or the first line that does not parse.
pub open spec fn program_spec(s: Seq<char>) -> Result<(Map<Seq<char>, i64>, Seq<StmtModel>), LineError> {
    program_from(lines(s), 0, Map::empty(), seq![])
}

/// Runs one statement: its value, and the mapping after it.
pub open spec fn exec_stmt(vars: Map<Seq<char>, i64>, st: StmtModel) -> Result<(Map<Seq<char>, i64>, i64), ErrorKind> {
    match st {
        StmtModel::Declaration(n, _) => match lookup(vars, n) {
            Some(v) => Ok((vars, v)),
            None => Err(ErrorKind::UndefinedVariable),
        },
        StmtModel::Assignment(n, e) => match eval(e, vars) {
            Ok(v) => Ok((vars.insert(n, v), v)),
            Err(k) => Err(k),
        },
        StmtModel::Expression(e) => match eval(e, vars) {
            Ok(v) => Ok((vars, v)),
            Err(k) => Err(k),
        },
    }
}

/// Runs the statements from index `k` on, in order: the final mapping, and
/// the values of all statements or the first error.
pub open spec fn run_from(
    vars: Map<Seq<char>, i64>,
    stmts: Seq<StmtModel>,
    k: int,
    acc: Seq<i64>,
) -> (Map<Seq<char>, i64>, Result<Seq<i64>, LineError>)
    decreases stmts.len() - k,
{
    if k < 0 || k >= stmts.len() {
        (vars, Ok(acc))
    } else {
        match exec_stmt(vars, stmts[k]) {
            Err(e) => (vars, Err(LineError { line: (k + 1) as usize, kind: e })),
            Ok((next, v)) => run_from(next, stmts, k + 1, acc.push(v)),
        }
    }
}

pub open spec fn run_spec(vars: Map<Seq<char>, i64>, stmts: Seq<StmtModel>) -> (Map<Seq<char>, i64>, Result<Seq<i64>, LineError>) {
    run_from(vars, stmts, 0, seq![])
}

pub open spec fn values_model(r: Result<Vec<i64>, LineError>) -> Result<Seq<i64>, LineError> {
    match r {
        Ok(v) => Ok(v@),
        Err(e) => Err(e),
    }
}

/// Parses a text line by line.
pub fn parse_program(input: &str) -> (r: Result<Program, LineError>)
    ensures
        match r {
            Ok(p) => program_spec(input@) == Ok::<_, LineError>((p.variables@, stmt_models(p.statements@))),
            Err(e) => program_spec(input@) == Err::<(Map<Seq<char>, i64>, Seq<StmtModel>), LineError>(e),
        },
{
    let ls = split_lines(input);
    let ghost lv = string_views(ls@);
    let mut p = Program::new();
    let mut k: usize = 0;
    assert(stmt_models(p.statements@) =~= seq![]);
    while k < ls.len()
        invariant
            k <= ls@.len(),
            lv == string_views(ls@),
            lv == lines(input@),
            program_spec(input@) == program_from(lv, k as int, p.variables@, stmt_models(p.statements@)),
        decreases ls@.len() - k,
    {
        let ghost before = p.statements@;
        assert(lv[k as int] == ls@[k as int]@);
        match parse_statement(ls[k].as_str()) {
            Err(kind) => {
                return Err(LineError { line: k + 1, kind });
            },
            Ok(st) => {
                if let Stmt::Declaration(name, v) = &st {
                    p.variables.set(name.clone(), *v);
                }
                p.statements.push(st);
                assert(stmt_models(p.statements@) =~= stmt_models(before).push(st.model()));
            },
        }
        k = k + 1;
    }
    Ok(p)
}

/// Parses a text and runs its statements: the value of each, in order.
pub fn interpret(input: &str) -> (r: Result<Vec<i64>, LineError>)
    ensures
        match program_spec(input@) {
            Ok((vars, stmts)) => values_model(r) == run_spec(vars, stmts).1,
            Err(e) => r == Err::<Vec<i64>, LineError>(e),
        },
{
    match parse_program(input) {
        Ok(mut p) => p.run(),
        Err(e) => Err(e),
    }
}

impl Program {
    /// An empty program.
    pub fn new() -> (r: Program)
        ensures
            r.variables@ == Map::<Seq<char>, i64>::empty(),
            r.statements@.len() == 0,
    {
        Program { variables: Env::new(), statements: Vec::new() }
    }

    /// Runs the statements in order against the variables; each statement
    /// sees what the ones before it stored.
    pub fn run(&mut self) -> (r: Result<Vec<i64>, LineError>)
        ensures
            final(self).statements@ == old(self).statements@,
            final(self).variables@ == run_spec(old(self).variables@, stmt_models(old(self).statements@)).0,
            values_model(r) == run_spec(old(self).variables@, stmt_models(old(self).statements@)).1,
    {
        let ghost sm = stmt_models(self.statements@);
        let mut values: Vec<i64> = Vec::new();
        let n = self.statements.len();
        let mut k: usize = 0;
        while k < n
            invariant
                n == self.statements@.len(),
                k <= n,
                self.statements@ == old(self).statements@,
                sm == stmt_models(self.statements@),
                run_spec(old(self).variables@, sm) == run_from(self.variables@, sm, k as int, values@),
            decreases n - k,
        {
            assert(sm[k as int] == self.statements@[k as int].model());
            let res = match &self.statements[k] {
                Stmt::Declaration(name, _) => match self.variables.get(name) {
                    Some(v) => Ok(v),
                    None => Err(ErrorKind::UndefinedVariable),
                },
                Stmt::Assignment(name, e) => match evaluate_expr(e, &self.variables) {
                    Ok(v) => {
                        self.variables.set(name.clone(), v);
                        Ok(v)
                    },
                    Err(kind) => Err(kind),
                },
                Stmt::Expression(e) => evaluate_expr(e, &self.variables),
            };
            match res {
                Ok(v) => values.push(v),
                Err(kind) => {
                    return Err(LineError { line: k + 1, kind });
                },
            }
            k = k + 1;
        }
        Ok(values)
    }
}

} // verus!
