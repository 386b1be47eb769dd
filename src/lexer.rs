use vstd::prelude::*;
use vstd::string::*;
use crate::ast::Op;

verus! {

/// A lexical token of one line.
#[derive(Clone, Debug, PartialEq, Eq)]
pub enum Token {
    /// A run of digits whose value fits in `i64`.
    Number(i64),
    /// A run of word characters; also a run of digits too large for `i64`.
    Word(String),
    Operator(Op),
    Open,
    Close,
}

/// The mathematical value of a token.
pub enum TokenModel {
    Number(i64),
    Word(Seq<char>),
    Operator(Op),
    Open,
    Close,
}

impl Token {
    pub open spec fn model(&self) -> TokenModel {
        match self {
            Token::Number(n) => TokenModel::Number(*n),
            Token::Word(w) => TokenModel::Word(w@),
            Token::Operator(op) => TokenModel::Operator(*op),
            Token::Open => TokenModel::Open,
            Token::Close => TokenModel::Close,
        }
    }
}

pub open spec fn token_models(ts: Seq<Token>) -> Seq<TokenModel> {
    ts.map_values(|t: Token| t.model())
}

pub open spec fn is_digit(c: char) -> bool {
    '0' <= c <= '9'
}

/// ASCII letters, digits and the underscore.
pub open spec fn is_word_char(c: char) -> bool {
    is_digit(c) || ('a' <= c <= 'z') || ('A' <= c <= 'Z') || c == '_'
}

pub open spec fn operator_of(c: char) -> Option<Op> {
    if c == '+' {
        Some(Op::Add)
    } else if c == '-' {
        Some(Op::Sub)
    } else if c == '*' {
        Some(Op::Mul)
    } else if c == '/' {
        Some(Op::Div)
    } else {
        None
    }
}

/// The end of the longest run starting at `i` of digits (`digits`) or of word characters.
pub open spec fn run_end(s: Seq<char>, i: int, digits: bool) -> int
    decreases s.len() - i,
{
    if 0 <= i < s.len() && (if digits { is_digit(s[i]) } else { is_word_char(s[i]) }) {
        run_end(s, i + 1, digits)
    } else {
        i
    }
}

pub open spec fn digit_value(c: char) -> int {
    c as int - '0' as int
}

/// The decimal value of a sequence of digits.
pub open spec fn digits_value(d: Seq<char>) -> int
    decreases d.len(),
{
    if d.len() == 0 {
        0
    } else {
        digits_value(d.drop_last()) * 10 + digit_value(d.last())
    }
}

/// A run of digits is a number when its value fits in `i64`, else a word.
pub open spec fn number_token(d: Seq<char>) -> TokenModel {
    if digits_value(d) <= i64::MAX {
        TokenModel::Number(digits_value(d) as i64)
    } else {
        TokenModel::Word(d)
    }
}

/// The tokens of `s` from position `i` on: longest runs of digits, single
/// operator or parenthesis characters, and runs of word characters that do not
/// start with a digit; every other character is skipped.
pub open spec fn lex_from(s: Seq<char>, i: int) -> Seq<TokenModel>
    decreases s.len() - i,
    via lex_from_decreases
{
    if i < 0 || i >= s.len() {
        seq![]
    } else if is_digit(s[i]) {
        let j = run_end(s, i, true);
        seq![number_token(s.subrange(i, j))] + lex_from(s, j)
    } else if operator_of(s[i]) is Some {
        seq![TokenModel::Operator(operator_of(s[i])->0)] + lex_from(s, i + 1)
    } else if s[i] == '(' {
        seq![TokenModel::Open] + lex_from(s, i + 1)
    } else if s[i] == ')' {
        seq![TokenModel::Close] + lex_from(s, i + 1)
    } else if is_word_char(s[i]) {
        let j = run_end(s, i, false);
        seq![TokenModel::Word(s.subrange(i, j))] + lex_from(s, j)
    } else {
        lex_from(s, i + 1)
    }
}

#[via_fn]
proof fn lex_from_decreases(s: Seq<char>, i: int) {
    if 0 <= i < s.len() {
        lemma_run_end(s, i + 1, true);
        lemma_run_end(s, i + 1, false);
    }
}

pub open spec fn lex(s: Seq<char>) -> Seq<TokenModel> {
    lex_from(s, 0)
}

/// A run ends between its start and the end of the text, and every character in it belongs to the run.
pub proof fn lemma_run_end(s: Seq<char>, i: int, digits: bool)
    requires
        0 <= i <= s.len(),
    ensures
        i <= run_end(s, i, digits) <= s.len(),
        forall|k: int|
            i <= k < run_end(s, i, digits) ==> (if digits { is_digit(s[k]) } else { is_word_char(s[k]) }),
        run_end(s, i, digits) < s.len() ==> !(if digits { is_digit(s[run_end(s, i, digits)]) } else { is_word_char(s[run_end(s, i, digits)]) }),
    decreases s.len() - i,
{
    if i < s.len() && (if digits { is_digit(s[i]) } else { is_word_char(s[i]) }) {
        lemma_run_end(s, i + 1, digits);
    }
}

proof fn lemma_digits_value_nonneg(d: Seq<char>)
    requires
        forall|k: int| 0 <= k < d.len() ==> is_digit(#[trigger] d[k]),
    ensures
        digits_value(d) >= 0,
    decreases d.len(),
{
    if d.len() > 0 {
        lemma_digits_value_nonneg(d.drop_last());
    }
}

pub(crate) fn is_digit_char(c: char) -> (r: bool)
    ensures
        r == is_digit(c),
{
    '0' <= c && c <= '9'
}

pub(crate) fn is_word_character(c: char) -> (r: bool)
    ensures
        r == is_word_char(c),
{
    ('0' <= c && c <= '9') || ('a' <= c && c <= 'z') || ('A' <= c && c <= 'Z') || c == '_'
}

fn operator_char(c: char) -> (r: Option<Op>)
    ensures
        r == operator_of(c),
{
    if c == '+' {
        Some(Op::Add)
    } else if c == '-' {
        Some(Op::Sub)
    } else if c == '*' {
        Some(Op::Mul)
    } else if c == '/' {
        Some(Op::Div)
    } else {
        None
    }
}

/// The characters of `s`, in order.
pub fn chars_of(s: &str) -> (r: Vec<char>)
    ensures
        r@ == s@,
{
    let n = s.unicode_len();
    let mut r: Vec<char> = Vec::new();
    let mut i: usize = 0;
    while i < n
        invariant
            n == s@.len(),
            i <= n,
            r@ == s@.subrange(0, i as int),
        decreases n - i,
    {
        r.push(s.get_char(i));
        i = i + 1;
    }
    assert(r@ =~= s@);
    r
}

fn in_run(c: char, digits: bool) -> (r: bool)
    ensures
        r == (if digits { is_digit(c) } else { is_word_char(c) }),
{
    if digits {
        is_digit_char(c)
    } else {
        is_word_character(c)
    }
}

/// The end of the run that starts at `i`.
pub(crate) fn scan_run(cs: &Vec<char>, i: usize, digits: bool) -> (j: usize)
    requires
        i <= cs@.len(),
    ensures
        j == run_end(cs@, i as int, digits),
{
    proof {
        lemma_run_end(cs@, i as int, digits);
    }
    let mut j = i;
    while j < cs.len() && in_run(cs[j], digits)
        invariant
            i <= j <= cs@.len(),
            run_end(cs@, j as int, digits) == run_end(cs@, i as int, digits),
        decreases cs@.len() - j,
    {
        j = j + 1;
    }
    j
}

/// The token for the run of digits `cs[i..j]`.
pub(crate) fn number_of(s: &str, cs: &Vec<char>, i: usize, j: usize) -> (t: Token)
    requires
        cs@ == s@,
        i <= j <= cs@.len(),
        forall|k: int| i <= k < j ==> is_digit(#[trigger] cs@[k]),
    ensures
        t.model() == number_token(cs@.subrange(i as int, j as int)),
{
    let mut acc: i64 = 0;
    let mut big = false;
    let mut k = i;
    while k < j
        invariant
            i <= k <= j <= cs@.len(),
            forall|m: int| i <= m < j ==> is_digit(#[trigger] cs@[m]),
            !big ==> acc == digits_value(cs@.subrange(i as int, k as int)),
            big ==> digits_value(cs@.subrange(i as int, k as int)) > i64::MAX,
            acc >= 0,
        decreases j - k,
    {
        let ghost before = cs@.subrange(i as int, k as int);
        let ghost after = cs@.subrange(i as int, k + 1);
        assert(after.drop_last() =~= before);
        proof {
            lemma_digits_value_nonneg(before);
        }
        let d = (cs[k] as u32 - '0' as u32) as i64;
        if !big {
            let t: i128 = acc as i128 * 10 + d as i128;
            if t > i64::MAX as i128 {
                big = true;
            } else {
                acc = t as i64;
            }
        }
        k = k + 1;
    }
    if big {
        Token::Word(String::from_str(s.substring_char(i, j)))
    } else {
        Token::Number(acc)
    }
}

/// Splits a line into tokens, left to right.
pub fn tokenize(s: &str) -> (r: Vec<Token>)
    ensures
        token_models(r@) == lex(s@),
{
    let cs = chars_of(s);
    let n = cs.len();
    let mut r: Vec<Token> = Vec::new();
    let mut i: usize = 0;
    while i < n
        invariant
            n == cs@.len(),
            cs@ == s@,
            i <= n,
            lex(s@) == token_models(r@) + lex_from(s@, i as int),
        decreases n - i,
    {
        let c = cs[i];
        let ghost before = r@;
        let tok: Option<Token>;
        let next: usize;
        if is_digit_char(c) {
            let j = scan_run(&cs, i, true);
            proof {
                lemma_run_end(cs@, i as int, true);
            }
            tok = Some(number_of(s, &cs, i, j));
            next = j;
        } else if let Some(op) = operator_char(c) {
            tok = Some(Token::Operator(op));
            next = i + 1;
        } else if c == '(' {
            tok = Some(Token::Open);
            next = i + 1;
        } else if c == ')' {
            tok = Some(Token::Close);
            next = i + 1;
        } else if is_word_character(c) {
            let j = scan_run(&cs, i, false);
            proof {
                lemma_run_end(cs@, i as int, false);
            }
            tok = Some(Token::Word(String::from_str(s.substring_char(i, j))));
            next = j;
        } else {
            tok = None;
            next = i + 1;
        }
        match tok {
            Some(t) => {
                r.push(t);
                assert(token_models(r@) =~= token_models(before) + seq![t.model()]);
                assert(lex_from(s@, i as int) == seq![t.model()] + lex_from(s@, next as int));
                assert(lex(s@) =~= token_models(r@) + lex_from(s@, next as int));
            },
            None => {},
        }
        i = next;
    }
    assert(lex_from(s@, i as int) =~= seq![]);
    assert(token_models(r@) + seq![] =~= token_models(r@));
    r
}

/// A run that starts before a character outside every run ends before it, in the text cut there too.
proof fn lemma_run_end_prefix(s: Seq<char>, a: int, i: int, digits: bool)
    requires
        0 <= i <= a < s.len(),
        !is_word_char(s[a]),
    ensures
        run_end(s, i, digits) == run_end(s.take(a), i, digits),
    decreases a - i,
{
    if i < a {
        lemma_run_end_prefix(s, a, i + 1, digits);
    }
}

/// A run in the second part of a text is the same run shifted.
proof fn lemma_run_end_shift(p: Seq<char>, b: Seq<char>, k: int, digits: bool)
    requires
        0 <= k <= b.len(),
    ensures
        run_end(p + b, p.len() + k, digits) == p.len() + run_end(b, k, digits),
    decreases b.len() - k,
{
    if k < b.len() {
        assert((p + b)[p.len() + k] == b[k]);
        lemma_run_end_shift(p, b, k + 1, digits);
    }
}

/// A run over characters that all belong to it goes to the end of the text.
proof fn lemma_run_end_full(s: Seq<char>, i: int, digits: bool)
    requires
        0 <= i <= s.len(),
        forall|k: int| i <= k < s.len() ==> (if digits { is_digit(#[trigger] s[k]) } else { is_word_char(s[k]) }),
    ensures
        run_end(s, i, digits) == s.len(),
    decreases s.len() - i,
{
    if i < s.len() {
        lemma_run_end_full(s, i + 1, digits);
    }
}

/// Tokens do not reach across a character that is no word character: the
/// tokens before position `a` are those of the text cut at `a`.
pub proof fn lemma_lex_prefix(s: Seq<char>, a: int, i: int)
    requires
        0 <= i <= a < s.len(),
        !is_word_char(s[a]),
    ensures
        lex_from(s, i) == lex_from(s.take(a), i) + lex_from(s, a),
    decreases a - i,
{
    let t = s.take(a);
    if i == a {
        assert(lex_from(t, i) =~= seq![]);
        assert(seq![] + lex_from(s, a) =~= lex_from(s, a));
    } else {
        assert(s[i] == t[i]);
        if is_digit(s[i]) || (is_word_char(s[i]) && operator_of(s[i]) is None && s[i] != '(' && s[i] != ')') {
            let d = is_digit(s[i]);
            lemma_run_end_prefix(s, a, i, d);
            lemma_run_end(t, i + 1, d);
            let j = run_end(s, i, d);
            assert(s.subrange(i, j) =~= t.subrange(i, j));
            lemma_lex_prefix(s, a, j);
        } else {
            lemma_lex_prefix(s, a, i + 1);
        }
    }
}

/// The tokens of the second part of a text are found the same way after the first part.
pub proof fn lemma_lex_shift(p: Seq<char>, b: Seq<char>, k: int)
    requires
        0 <= k <= b.len(),
    ensures
        lex_from(p + b, p.len() + k) == lex_from(b, k),
    decreases b.len() - k,
{
    let s = p + b;
    let i = p.len() + k;
    if k < b.len() {
        assert(s[i] == b[k]);
        if is_digit(b[k]) || (is_word_char(b[k]) && operator_of(b[k]) is None && b[k] != '(' && b[k] != ')') {
            let d = is_digit(b[k]);
            lemma_run_end_shift(p, b, k, d);
            lemma_run_end(b, k + 1, d);
            let j = run_end(b, k, d);
            assert(s.subrange(i, p.len() + j) =~= b.subrange(k, j));
            lemma_lex_shift(p, b, j);
        } else {
            lemma_lex_shift(p, b, k + 1);
        }
    }
}

/// A text made only of digits is one number token, or one word when too large.
pub proof fn lemma_lex_digits(d: Seq<char>)
    requires
        d.len() > 0,
        forall|k: int| 0 <= k < d.len() ==> is_digit(#[trigger] d[k]),
    ensures
        lex(d) == seq![number_token(d)],
{
    lemma_run_end_full(d, 0, true);
    assert(d.subrange(0, d.len() as int) =~= d);
    assert(lex_from(d, d.len() as int) =~= seq![]);
    assert(lex(d) =~= seq![number_token(d)]);
}

/// A run of word characters that does not start with a digit is one word token.
pub proof fn lemma_lex_word(w: Seq<char>)
    requires
        w.len() > 0,
        !is_digit(w[0]),
        forall|k: int| 0 <= k < w.len() ==> is_word_char(#[trigger] w[k]),
    ensures
        lex(w) == seq![TokenModel::Word(w)],
{
    lemma_run_end_full(w, 0, false);
    assert(w.subrange(0, w.len() as int) =~= w);
    assert(lex_from(w, w.len() as int) =~= seq![]);
    assert(lex(w) =~= seq![TokenModel::Word(w)]);
}

} // verus!
